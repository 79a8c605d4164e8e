//! The core [`Graph`] container.

use crate::id::{EdgeId, NodeId, PortId};
use crate::model::{
    lemma_empty_consistent, lemma_insert_edge_consistent, lemma_insert_node_consistent,
    lemma_insert_port_consistent, lemma_remove_edge_consistent, lemma_remove_node_consistent,
    lemma_set_node_data_consistent, lemma_set_port_data_consistent, lemma_set_edge_data_consistent,
    lemma_without_ports_consistent, lemma_without_ports_twice, EdgeView, GraphView, NodeView, PortView,
};
use crate::seqs::{
    copy_edges, copy_ports, edge_not_in, edges_without, lemma_filter_all, lemma_push_contains, lemma_filter_ext, lemma_filter_filter, other_edge, other_port,
    ports_without,
};
use crate::slots::{
    is_issued_shape, slot_index, slot_issued, slot_keys, slot_span, slots_clear, slots_clone, slots_contains, slots_insert, slots_keys, slots_len,
    slots_new, slots_remove, KeySlots, ISSUE_LIMIT,
};
use crate::persist::{
    edge_ids, edge_ids_of, edge_ok, edge_rows, edges_contain, edges_distinct, issued_keys, keys_are_live,
    lemma_checks_consistent, lemma_issued_keys, live_keys, node_ok, node_rows, port_ids, port_ids_of, port_ok, port_rows,
    all_shaped, node_rows_shaped, port_rows_shaped, edge_rows_shaped, slots_loadable, loadable, rows_describe,
    lemma_rows_determine, rows_live,
    ports_contain, ports_distinct, restore_slots, slot_versions, port_keys_of, edge_keys_of, GraphParts,
};
use std::collections::HashMap;
use vstd::prelude::*;

verus! {

broadcast use {vstd::std_specs::hash::group_hash_axioms, crate::id::group_id_lemmas};

/// The most elements of one kind that a graph can hold: the slot map that
/// issues their identifiers is full beyond this.
pub const MAX_LIVE: usize = 0xffff_fffe;

#[derive(Debug, Clone)]
struct NodeEntry<N> {
    data: N,
    /// Ports in insertion order.
    ports: Vec<PortId>,
}

#[derive(Debug, Clone)]
struct PortEntry<P> {
    data: P,
    node: NodeId,
    /// Edges incident to this port, in insertion order.
    edges: Vec<EdgeId>,
}

#[derive(Debug)]
struct EdgeEntry<E> {
    data: E,
    /// The two endpoints, in the order passed to `connect`.
    ends: (PortId, PortId),
}

impl<E: Clone> Clone for EdgeEntry<E> {
    fn clone(&self) -> Self {
        EdgeEntry { data: self.data.clone(), ends: self.ends }
    }
}

/// A node-port-edge graph carrying node data `N`, port data `P` and edge
/// data `E`. Each kind of element has a slot map that issues its
/// identifiers and a table, keyed by their 64-bit forms, that holds its
/// entries: the slot maps carry no data, so what they hold is stated as sets
/// of keys whatever the data types are.
#[derive(Debug)]
pub struct Graph<N, P, E> {
    node_keys: KeySlots,
    port_keys: KeySlots,
    edge_keys: KeySlots,
    nodes: HashMap<u64, NodeEntry<N>>,
    ports: HashMap<u64, PortEntry<P>>,
    edges: HashMap<u64, EdgeEntry<E>>,
    /// How many node, port and edge identifiers have been issued so far.
    nodes_issued: usize,
    ports_issued: usize,
    edges_issued: usize,
}

/// Error returned by [`Graph::add_port`] when the owning node doesn't exist.
#[derive(Debug, Clone, Copy, PartialEq, Eq, Structural)]
pub struct NodeMissing;

/// Errors returned by [`Graph::connect`] / [`Graph::connect_with`].
#[derive(Debug, Clone, Copy, PartialEq, Eq, Structural)]
pub enum ConnectError {
    /// One or both port IDs are stale / unknown.
    PortMissing,
    /// Both endpoints are the same port.
    SelfLoop,
    /// The user predicate passed to [`Graph::connect_with`] returned `false`.
    Rejected,
}

impl ConnectError {
    /// The human-readable description of the error.
    pub fn message(&self) -> (s: &'static str)
        ensures
            s@ == match *self {
                ConnectError::PortMissing => "one or both ports do not exist"@,
                ConnectError::SelfLoop => "cannot connect a port to itself"@,
                ConnectError::Rejected => "connection rejected by validator"@,
            },
    {
        match self {
            ConnectError::PortMissing => "one or both ports do not exist",
            ConnectError::SelfLoop => "cannot connect a port to itself",
            ConnectError::Rejected => "connection rejected by validator",
        }
    }
}

impl<N, P, E> View for Graph<N, P, E> {
    type V = GraphView<N, P, E>;

    closed spec fn view(&self) -> GraphView<N, P, E> {
        GraphView {
            nodes: Map::new(
                |n: NodeId| self.nodes@.contains_key(n@),
                |n: NodeId| NodeView { data: self.nodes@[n@].data, ports: self.nodes@[n@].ports@ },
            ),
            ports: Map::new(
                |p: PortId| self.ports@.contains_key(p@),
                |p: PortId|
                    PortView {
                        data: self.ports@[p@].data,
                        node: self.ports@[p@].node,
                        edges: self.ports@[p@].edges@,
                    },
            ),
            edges: Map::new(
                |e: EdgeId| self.edges@.contains_key(e@),
                |e: EdgeId| EdgeView { data: self.edges@[e@].data, ends: self.edges@[e@].ends },
            ),
        }
    }
}

/// `HashMap::get_mut` on a table keyed by 64-bit keys: a mutable reference
/// to the value at `key`, where there is one. Afterwards the table holds at
/// `key` what was written through the reference, and is otherwise as before.
#[verifier::external_body]
fn table_get_mut<V>(table: &mut HashMap<u64, V>, key: u64) -> (r: Option<&mut V>)
    ensures
        match r {
            Some(v) => {
                &&& old(table)@.contains_key(key)
                &&& *v == old(table)@[key]
                &&& final(table)@ == old(table)@.insert(key, *final(v))
            },
            None => !old(table)@.contains_key(key) && final(table)@ == old(table)@,
        },
{
    table.get_mut(&key)
}

impl<N, P, E> vstd::std_specs::core::IndexSpecImpl<NodeId> for Graph<N, P, E> {
    open spec fn index_req(&self, id: &NodeId) -> bool {
        self.wf() && self@.nodes.contains_key(*id)
    }
}

impl<N, P, E> core::ops::Index<NodeId> for Graph<N, P, E> {
    type Output = N;

    /// The data of a live node; a stale identifier is outside `index_req`.
    fn index(&self, id: NodeId) -> (r: &N)
        ensures
            *r == self@.nodes[id].data,
    {
        self.node(id).unwrap()
    }
}

impl<N, P, E> vstd::std_specs::core::IndexSpecImpl<PortId> for Graph<N, P, E> {
    open spec fn index_req(&self, id: &PortId) -> bool {
        self.wf() && self@.ports.contains_key(*id)
    }
}

impl<N, P, E> core::ops::Index<PortId> for Graph<N, P, E> {
    type Output = P;

    /// The data of a live port; a stale identifier is outside `index_req`.
    fn index(&self, id: PortId) -> (r: &P)
        ensures
            *r == self@.ports[id].data,
    {
        self.port(id).unwrap()
    }
}

impl<N, P, E> vstd::std_specs::core::IndexSpecImpl<EdgeId> for Graph<N, P, E> {
    open spec fn index_req(&self, id: &EdgeId) -> bool {
        self.wf() && self@.edges.contains_key(*id)
    }
}

impl<N, P, E> core::ops::Index<EdgeId> for Graph<N, P, E> {
    type Output = E;

    /// The data of a live edge; a stale identifier is outside `index_req`.
    fn index(&self, id: EdgeId) -> (r: &E)
        ensures
            *r == self@.edges[id].data,
    {
        self.edge(id).unwrap()
    }
}

/// Keys listed in strictly increasing slot order are distinct, so there
/// are as many of them as in the set they form.
proof fn lemma_slot_ordered_keys(keys: Seq<u64>)
    requires
        forall|a: int, b: int| 0 <= a < b < keys.len() ==> slot_index(#[trigger] keys[a]) < slot_index(#[trigger] keys[b]),
    ensures
        keys.no_duplicates(),
        keys.to_set().len() == keys.len(),
{
    assert forall|a: int, b: int| 0 <= a < b < keys.len() implies keys[a] != keys[b] by {
        assert(slot_index(keys[a]) < slot_index(keys[b]));
    }
    keys.unique_seq_to_set();
}

impl<N: Clone, P: Clone, E: Clone> Clone for Graph<N, P, E> {
    /// A copy of the graph: the same identifiers, structure and data, and
    /// the same identifiers issued, so the copy goes on issuing fresh ones
    /// exactly as the graph it copies would.
    fn clone(&self) -> (g: Self)
        ensures
            g@ == self@,
            g.same_issued(*self),
            self.wf() ==> g.wf(),
    {
        let g = Graph {
            node_keys: slots_clone(&self.node_keys),
            port_keys: slots_clone(&self.port_keys),
            edge_keys: slots_clone(&self.edge_keys),
            nodes: self.nodes.clone(),
            ports: self.ports.clone(),
            edges: self.edges.clone(),
            nodes_issued: self.nodes_issued,
            ports_issued: self.ports_issued,
            edges_issued: self.edges_issued,
        };
        proof {
            assert(g@.nodes =~= self@.nodes);
            assert(g@.ports =~= self@.ports);
            assert(g@.edges =~= self@.edges);
            assert(g.issued_nodes() =~= self.issued_nodes());
            assert(g.issued_ports() =~= self.issued_ports());
            assert(g.issued_edges() =~= self.issued_edges());
        }
        g
    }
}

impl<N, P, E> Default for Graph<N, P, E> {
    /// An empty graph.
    fn default() -> (g: Self)
        ensures
            g.wf(),
            g@ == GraphView::<N, P, E>::empty(),
            g.issued_nodes() == Set::<NodeId>::empty(),
            g.issued_ports() == Set::<PortId>::empty(),
            g.issued_edges() == Set::<EdgeId>::empty(),
            g.issued_node_count() == 0,
            g.issued_port_count() == 0,
            g.issued_edge_count() == 0,
    {
        Graph::new()
    }
}

impl<N, P, E> Graph<N, P, E> {
    /// The representation matches the model: the live keys of each allocator
    /// are the keys of the matching table, all of issued shape.
    pub closed spec fn tables_match(&self) -> bool {
        &&& self.keys_match()
        &&& self.history_ok()
        &&& self.nodes@.len() <= MAX_LIVE
        &&& self.ports@.len() <= MAX_LIVE
        &&& self.edges@.len() <= MAX_LIVE
    }

    /// Each allocator has issued finitely many keys, no more than
    /// `ISSUE_LIMIT`, and every live key among them.
    closed spec fn history_ok(&self) -> bool {
        &&& slot_issued(self.node_keys).finite()
        &&& slot_issued(self.port_keys).finite()
        &&& slot_issued(self.edge_keys).finite()
        &&& slot_issued(self.node_keys).len() <= ISSUE_LIMIT
        &&& slot_issued(self.port_keys).len() <= ISSUE_LIMIT
        &&& slot_issued(self.edge_keys).len() <= ISSUE_LIMIT
        &&& forall|k: u64| #[trigger] slot_keys(self.node_keys).contains(k) ==> slot_issued(self.node_keys).contains(k)
        &&& forall|k: u64| #[trigger] slot_keys(self.port_keys).contains(k) ==> slot_issued(self.port_keys).contains(k)
        &&& forall|k: u64| #[trigger] slot_keys(self.edge_keys).contains(k) ==> slot_issued(self.edge_keys).contains(k)
        &&& slot_span(self.node_keys) <= slot_issued(self.node_keys).len() + 1
        &&& slot_span(self.port_keys) <= slot_issued(self.port_keys).len() + 1
        &&& slot_span(self.edge_keys) <= slot_issued(self.edge_keys).len() + 1
        &&& self.nodes_issued == slot_issued(self.node_keys).len()
        &&& self.ports_issued == slot_issued(self.port_keys).len()
        &&& self.edges_issued == slot_issued(self.edge_keys).len()
    }

    /// Each allocator has no more live keys than issued ones.
    proof fn lemma_live_bound(&self)
        requires
            self.keys_match(),
            self.history_ok(),
        ensures
            slot_keys(self.node_keys).len() <= slot_issued(self.node_keys).len(),
            slot_keys(self.port_keys).len() <= slot_issued(self.port_keys).len(),
            slot_keys(self.edge_keys).len() <= slot_issued(self.edge_keys).len(),
    {
        vstd::set_lib::lemma_len_subset(slot_keys(self.node_keys), slot_issued(self.node_keys));
        vstd::set_lib::lemma_len_subset(slot_keys(self.port_keys), slot_issued(self.port_keys));
        vstd::set_lib::lemma_len_subset(slot_keys(self.edge_keys), slot_issued(self.edge_keys));
    }

    /// Every node identifier this graph has issued, live or removed.
    pub closed spec fn issued_nodes(&self) -> Set<NodeId> {
        Set::new(|n: NodeId| slot_issued(self.node_keys).contains(n@))
    }

    /// Every port identifier this graph has issued, live or removed.
    pub closed spec fn issued_ports(&self) -> Set<PortId> {
        Set::new(|p: PortId| slot_issued(self.port_keys).contains(p@))
    }

    /// Every edge identifier this graph has issued, live or removed.
    pub closed spec fn issued_edges(&self) -> Set<EdgeId> {
        Set::new(|e: EdgeId| slot_issued(self.edge_keys).contains(e@))
    }

    /// How many node identifiers this graph has issued.
    pub closed spec fn issued_node_count(&self) -> nat {
        slot_issued(self.node_keys).len()
    }

    /// How many port identifiers this graph has issued.
    pub closed spec fn issued_port_count(&self) -> nat {
        slot_issued(self.port_keys).len()
    }

    /// How many edge identifiers this graph has issued.
    pub closed spec fn issued_edge_count(&self) -> nat {
        slot_issued(self.edge_keys).len()
    }

    /// How many node identifiers this graph has issued, live or removed;
    /// [`Graph::add_node`] needs it below [`ISSUE_LIMIT`].
    pub fn node_ids_issued(&self) -> (c: usize)
        requires
            self.wf(),
        ensures
            c == self.issued_node_count(),
            c <= ISSUE_LIMIT,
    {
        self.nodes_issued
    }

    /// How many port identifiers this graph has issued, live or removed.
    pub fn port_ids_issued(&self) -> (c: usize)
        requires
            self.wf(),
        ensures
            c == self.issued_port_count(),
            c <= ISSUE_LIMIT,
    {
        self.ports_issued
    }

    /// How many edge identifiers this graph has issued, live or removed.
    pub fn edge_ids_issued(&self) -> (c: usize)
        requires
            self.wf(),
        ensures
            c == self.issued_edge_count(),
            c <= ISSUE_LIMIT,
    {
        self.edges_issued
    }

    /// `self` has issued exactly the identifiers that `other` has.
    pub open spec fn same_issued(self, other: Self) -> bool {
        &&& self.issued_nodes() == other.issued_nodes()
        &&& self.issued_ports() == other.issued_ports()
        &&& self.issued_edges() == other.issued_edges()
        &&& self.issued_node_count() == other.issued_node_count()
        &&& self.issued_port_count() == other.issued_port_count()
        &&& self.issued_edge_count() == other.issued_edge_count()
    }

    /// In a well-formed graph every live identifier has been issued.
    pub proof fn lemma_live_issued(&self)
        requires
            self.wf(),
        ensures
            forall|n: NodeId| #[trigger] self@.nodes.contains_key(n) ==> self.issued_nodes().contains(n),
            forall|p: PortId| #[trigger] self@.ports.contains_key(p) ==> self.issued_ports().contains(p),
            forall|e: EdgeId| #[trigger] self@.edges.contains_key(e) ==> self.issued_edges().contains(e),
    {
        assert forall|n: NodeId| #[trigger] self@.nodes.contains_key(n) implies self.issued_nodes().contains(n) by {
            assert(slot_keys(self.node_keys).contains(n@));
        }
        assert forall|p: PortId| #[trigger] self@.ports.contains_key(p) implies self.issued_ports().contains(p) by {
            assert(slot_keys(self.port_keys).contains(p@));
        }
        assert forall|e: EdgeId| #[trigger] self@.edges.contains_key(e) implies self.issued_edges().contains(e) by {
            assert(slot_keys(self.edge_keys).contains(e@));
        }
    }

    /// Each allocator's live keys are the keys of the matching table, all of
    /// issued shape.
    closed spec fn keys_match(&self) -> bool {
        &&& slot_keys(self.node_keys) =~= self.nodes@.dom()
        &&& slot_keys(self.port_keys) =~= self.ports@.dom()
        &&& slot_keys(self.edge_keys) =~= self.edges@.dom()
        &&& forall|k: u64| #[trigger] self.nodes@.contains_key(k) ==> is_issued_shape(k)
        &&& forall|k: u64| #[trigger] self.ports@.contains_key(k) ==> is_issued_shape(k)
        &&& forall|k: u64| #[trigger] self.edges@.contains_key(k) ==> is_issued_shape(k)
    }

    /// The graph is well formed: its representation matches its model, and
    /// the model is consistent.
    pub open spec fn wf(&self) -> bool {
        &&& self.tables_match()
        &&& self@.is_consistent()
    }

    /// A well-formed graph has finitely many nodes, ports and edges, and no
    /// more of each than a key allocator can issue.
    pub proof fn lemma_finite(&self)
        requires
            self.wf(),
        ensures
            self@.nodes.dom().finite(),
            self@.ports.dom().finite(),
            self@.edges.dom().finite(),
            self@.nodes.len() <= MAX_LIVE,
            self@.ports.len() <= MAX_LIVE,
            self@.edges.len() <= MAX_LIVE,
    {
        self.lemma_view_finite();
    }

    proof fn lemma_view_finite(&self)
        requires
            self.keys_match(),
        ensures
            self@.nodes.dom().finite(),
            self@.ports.dom().finite(),
            self@.edges.dom().finite(),
            self@.nodes.dom().len() == self.nodes@.dom().len(),
            self@.ports.dom().len() == self.ports@.dom().len(),
            self@.edges.dom().len() == self.edges@.dom().len(),
    {
        let fnode = |k: u64| NodeId::node_id_of(k);
        let fport = |k: u64| PortId::port_id_of(k);
        let fedge = |k: u64| EdgeId::edge_id_of(k);
        assert(self@.nodes.dom() =~= self.nodes@.dom().map(fnode));
        assert(self@.ports.dom() =~= self.ports@.dom().map(fport));
        assert(self@.edges.dom() =~= self.edges@.dom().map(fedge));
        assert forall|a: u64, b: u64| #[trigger] fnode(a) == #[trigger] fnode(b) implies a == b by {
            assert(fnode(a)@ == a && fnode(b)@ == b);
        }
        assert forall|a: u64, b: u64| #[trigger] fport(a) == #[trigger] fport(b) implies a == b by {
            assert(fport(a)@ == a && fport(b)@ == b);
        }
        assert forall|a: u64, b: u64| #[trigger] fedge(a) == #[trigger] fedge(b) implies a == b by {
            assert(fedge(a)@ == a && fedge(b)@ == b);
        }
        vstd::set_lib::lemma_map_size(self.nodes@.dom(), self@.nodes.dom(), fnode);
        vstd::set_lib::lemma_map_size(self.ports@.dom(), self@.ports.dom(), fport);
        vstd::set_lib::lemma_map_size(self.edges@.dom(), self@.edges.dom(), fedge);
    }

    /// Checks from the tables that the model is consistent: every live
    /// node, port and edge passes its own check.
    fn structure_ok(&self) -> (ok: bool)
        requires
            self.keys_match(),
        ensures
            ok == (self@.ports_owned() && self@.edges_attached()),
    {
        proof {
            lemma_checks_consistent(self@);
        }
        let nkeys = slots_keys(&self.node_keys);
        let mut i: usize = 0;
        while i < nkeys.len()
            invariant
                self.keys_match(),
                nkeys@.to_set() == slot_keys(self.node_keys),
                i <= nkeys@.len(),
                forall|a: int| 0 <= a < i ==> node_ok(self@, NodeId::node_id_of(#[trigger] nkeys@[a])),
            decreases nkeys@.len() - i,
        {
            let k = nkeys[i];
            proof {
                assert(nkeys@.to_set().contains(nkeys@[i as int]));
            }
            let n = NodeId::from_key(k);
            let entry = self.nodes.get(&k).unwrap();
            assert(self@.nodes.contains_key(n));
            assert(entry.ports@ == self@.nodes[n].ports);
            if !ports_distinct(&entry.ports) {
                return false;
            }
            let mut j: usize = 0;
            while j < entry.ports.len()
                invariant
                    self.keys_match(),
                    self@.nodes.contains_key(n),
                    entry.ports@ == self@.nodes[n].ports,
                    j <= entry.ports@.len(),
                    forall|b: int|
                        0 <= b < j ==> self@.ports.contains_key(#[trigger] entry.ports@[b]) && self@.ports[entry.ports@[b]].node == n,
                decreases entry.ports@.len() - j,
            {
                let q = entry.ports[j];
                match self.ports.get(&q.key()) {
                    Some(pe) => {
                        if pe.node != n {
                            assert(self@.ports[q].node != n);
                            assert(!node_ok(self@, n));
                            return false;
                        }
                    },
                    None => {
                        assert(!self@.ports.contains_key(q));
                        assert(!node_ok(self@, n));
                        return false;
                    },
                }
                j = j + 1;
            }
            assert(node_ok(self@, n));
            i = i + 1;
        }
        let pkeys = slots_keys(&self.port_keys);
        let mut i: usize = 0;
        while i < pkeys.len()
            invariant
                self.keys_match(),
                pkeys@.to_set() == slot_keys(self.port_keys),
                forall|n: NodeId| #[trigger] self@.nodes.contains_key(n) ==> node_ok(self@, n),
                i <= pkeys@.len(),
                forall|a: int| 0 <= a < i ==> port_ok(self@, PortId::port_id_of(#[trigger] pkeys@[a])),
            decreases pkeys@.len() - i,
        {
            let k = pkeys[i];
            proof {
                assert(pkeys@.to_set().contains(pkeys@[i as int]));
            }
            let p = PortId::from_key(k);
            let entry = self.ports.get(&k).unwrap();
            assert(self@.ports.contains_key(p));
            assert(entry.edges@ == self@.ports[p].edges);
            let m = entry.node;
            match self.nodes.get(&m.key()) {
                Some(ne) => {
                    if !ports_contain(&ne.ports, p) {
                        assert(!node_ok(self@, m) || !port_ok(self@, p));
                        return false;
                    }
                },
                None => {
                    assert(!port_ok(self@, p));
                    return false;
                },
            }
            if !edges_distinct(&entry.edges) {
                return false;
            }
            let mut j: usize = 0;
            while j < entry.edges.len()
                invariant
                    self.keys_match(),
                    self@.ports.contains_key(p),
                    entry.edges@ == self@.ports[p].edges,
                    j <= entry.edges@.len(),
                    forall|b: int|
                        0 <= b < j ==> self@.edges.contains_key(#[trigger] entry.edges@[b]) && (self@.edges[entry.edges@[b]].ends.0
                            == p || self@.edges[entry.edges@[b]].ends.1 == p),
                decreases entry.edges@.len() - j,
            {
                let e = entry.edges[j];
                match self.edges.get(&e.key()) {
                    Some(ee) => {
                        if ee.ends.0 != p && ee.ends.1 != p {
                            assert(!port_ok(self@, p));
                            return false;
                        }
                    },
                    None => {
                        assert(!self@.edges.contains_key(e));
                        assert(!port_ok(self@, p));
                        return false;
                    },
                }
                j = j + 1;
            }
            assert(port_ok(self@, p));
            i = i + 1;
        }
        let ekeys = slots_keys(&self.edge_keys);
        let mut i: usize = 0;
        while i < ekeys.len()
            invariant
                self.keys_match(),
                ekeys@.to_set() == slot_keys(self.edge_keys),
                forall|n: NodeId| #[trigger] self@.nodes.contains_key(n) ==> node_ok(self@, n),
                forall|p: PortId| #[trigger] self@.ports.contains_key(p) ==> port_ok(self@, p),
                i <= ekeys@.len(),
                forall|a: int| 0 <= a < i ==> edge_ok(self@, EdgeId::edge_id_of(#[trigger] ekeys@[a])),
            decreases ekeys@.len() - i,
        {
            let k = ekeys[i];
            proof {
                assert(ekeys@.to_set().contains(ekeys@[i as int]));
            }
            let e = EdgeId::from_key(k);
            let entry = self.edges.get(&k).unwrap();
            assert(self@.edges.contains_key(e));
            assert(entry.ends == self@.edges[e].ends);
            let (a, b) = entry.ends;
            if a == b {
                assert(!edge_ok(self@, e));
                return false;
            }
            match self.ports.get(&a.key()) {
                Some(pa) => {
                    assert(pa.edges@ == self@.ports[a].edges);
                    if !edges_contain(&pa.edges, e) {
                        assert(!edge_ok(self@, e));
                        return false;
                    }
                },
                None => {
                    assert(!self@.ports.contains_key(a));
                    assert(!edge_ok(self@, e));
                    return false;
                },
            }
            match self.ports.get(&b.key()) {
                Some(pb) => {
                    assert(pb.edges@ == self@.ports[b].edges);
                    if !edges_contain(&pb.edges, e) {
                        assert(!edge_ok(self@, e));
                        return false;
                    }
                },
                None => {
                    assert(!self@.ports.contains_key(b));
                    assert(!edge_ok(self@, e));
                    return false;
                },
            }
            assert(edge_ok(self@, e));
            i = i + 1;
        }
        proof {
            assert forall|p: PortId| #[trigger] self@.ports.contains_key(p) implies port_ok(self@, p) by {
                assert(pkeys@.to_set().contains(p@));
                let a = choose|a: int| 0 <= a < pkeys@.len() && pkeys@[a] == p@;
                assert(port_ok(self@, PortId::port_id_of(pkeys@[a])));
            }
            assert forall|e: EdgeId| #[trigger] self@.edges.contains_key(e) implies edge_ok(self@, e) by {
                assert(ekeys@.to_set().contains(e@));
                let a = choose|a: int| 0 <= a < ekeys@.len() && ekeys@[a] == e@;
                assert(edge_ok(self@, EdgeId::edge_id_of(ekeys@[a])));
            }
        }
        true
    }

    /// The node table that `rows` describe, with its keys: `None` when a
    /// key repeats or is not the form of an issued key.
    fn node_table(rows: Vec<(u64, N, Vec<u64>)>) -> (r: Option<(HashMap<u64, NodeEntry<N>>, Vec<u64>)>)
        ensures
            r is Some <==> node_rows_shaped(rows@),
            r matches Some(x) ==> {
                &&& x.1@.to_set() == x.0@.dom()
                &&& x.1@.no_duplicates()
                &&& x.1@.len() == rows@.len()
                &&& forall|k: u64| #[trigger] x.0@.contains_key(k) ==> is_issued_shape(k)
                &&& forall|k: u64| #[trigger] x.0@.contains_key(k) <==> exists|i: int| 0 <= i < rows@.len() && rows@[i].0 == k
                &&& forall|i: int|
                    #![trigger rows@[i]]
                    0 <= i < rows@.len() ==> x.0@[rows@[i].0].data == rows@[i].1 && x.0@[rows@[i].0].ports@ == port_ids_of(
                        rows@[i].2@,
                    )
            },
    {
        let ghost all = rows@;
        let mut rest = rows;
        let mut table: HashMap<u64, NodeEntry<N>> = HashMap::new();
        let mut keys: Vec<u64> = Vec::new();
        while rest.len() > 0
            invariant
                all == rows@,
                forall|i: int| rest@.len() <= i < all.len() ==> is_issued_shape(#[trigger] all[i].0) && all_shaped(all[i].2@),
                forall|i: int, j: int| rest@.len() <= i < j < all.len() ==> #[trigger] all[i].0 != #[trigger] all[j].0,
                all.len() == rest@.len() + keys@.len(),
                rest@ == all.take(rest@.len() as int),
                keys@.to_set() == table@.dom(),
                keys@.no_duplicates(),
                forall|k: u64| #[trigger] table@.contains_key(k) ==> is_issued_shape(k),
                forall|k: u64| #[trigger] table@.contains_key(k) <==> exists|i: int| rest@.len() <= i < all.len() && all[i].0 == k,
                forall|i: int|
                    #![trigger all[i]]
                    rest@.len() <= i < all.len() ==> table@[all[i].0].data == all[i].1 && table@[all[i].0].ports@
                        == port_ids_of(all[i].2@),
            decreases rest@.len(),
        {
            let ghost before = rest@;
            let (k, d, ps) = rest.pop().unwrap();
            let ghost at = rest@.len() as int;
            proof {
                assert(before[at] == all[at]);
                assert(rest@ =~= all.take(at));
            }
            if (k / 0x1_0000_0000) % 2 != 1 || table.contains_key(&k) {
                proof {
                    if table@.contains_key(k) {
                        let i = choose|i: int| rest@.len() <= i < all.len() && all[i].0 == k;
                        assert(all[at].0 == all[i].0);
                    }
                    assert(!node_rows_shaped(all));
                }
                return None;
            }
            let ids = match port_ids(&ps) {
                Some(v) => v,
                None => {
                    proof {
                        assert(!all_shaped(all[at].2@));
                    }
                    return None;
                },
            };
            let ghost keys0 = keys@;
            table.insert(k, NodeEntry { data: d, ports: ids });
            keys.push(k);
            proof {
                assert forall|x: u64| #[trigger] keys@.to_set().contains(x) <==> table@.dom().contains(x) by {
                    crate::seqs::lemma_push_contains(keys0, k, x);
                    assert(keys@.to_set().contains(x) == keys@.contains(x));
                    assert(keys0.to_set().contains(x) == keys0.contains(x));
                }
                assert(keys@.to_set() =~= table@.dom());
                assert(!keys0.contains(k)) by {
                    assert(keys0.to_set().contains(k) == keys0.contains(k));
                }
                crate::seqs::lemma_push_no_duplicates(keys0, k);
                assert forall|x: u64| #[trigger] table@.contains_key(x) <==> exists|i: int| rest@.len() <= i < all.len() && all[i].0 == x by {
                    if x == k {
                        assert(all[at].0 == x);
                    }
                }
            }
        }
        proof {
            assert(all.take(0) =~= Seq::<(u64, N, Vec<u64>)>::empty());
        }
        Some((table, keys))
    }

    /// The port table that `rows` describe, with its keys: `None` when a
    /// key repeats or a key, or a node's, is not the form of an issued key.
    fn port_table(rows: Vec<(u64, P, u64, Vec<u64>)>) -> (r: Option<(HashMap<u64, PortEntry<P>>, Vec<u64>)>)
        ensures
            r is Some <==> port_rows_shaped(rows@),
            r matches Some(x) ==> {
                &&& x.1@.to_set() == x.0@.dom()
                &&& x.1@.no_duplicates()
                &&& x.1@.len() == rows@.len()
                &&& forall|k: u64| #[trigger] x.0@.contains_key(k) ==> is_issued_shape(k)
                &&& forall|k: u64| #[trigger] x.0@.contains_key(k) <==> exists|i: int| 0 <= i < rows@.len() && rows@[i].0 == k
                &&& forall|i: int|
                    #![trigger rows@[i]]
                    0 <= i < rows@.len() ==> x.0@[rows@[i].0].data == rows@[i].1 && x.0@[rows@[i].0].node
                        == NodeId::node_id_of(rows@[i].2) && x.0@[rows@[i].0].edges@ == edge_ids_of(rows@[i].3@)
            },
    {
        let ghost all = rows@;
        let mut rest = rows;
        let mut table: HashMap<u64, PortEntry<P>> = HashMap::new();
        let mut keys: Vec<u64> = Vec::new();
        while rest.len() > 0
            invariant
                all == rows@,
                forall|i: int| rest@.len() <= i < all.len() ==> is_issued_shape(#[trigger] all[i].0) && is_issued_shape(all[i].2) && all_shaped(all[i].3@),
                forall|i: int, j: int| rest@.len() <= i < j < all.len() ==> #[trigger] all[i].0 != #[trigger] all[j].0,
                all.len() == rest@.len() + keys@.len(),
                rest@ == all.take(rest@.len() as int),
                keys@.to_set() == table@.dom(),
                keys@.no_duplicates(),
                forall|k: u64| #[trigger] table@.contains_key(k) ==> is_issued_shape(k),
                forall|k: u64| #[trigger] table@.contains_key(k) <==> exists|i: int| rest@.len() <= i < all.len() && all[i].0 == k,
                forall|i: int|
                    #![trigger all[i]]
                    rest@.len() <= i < all.len() ==> table@[all[i].0].data == all[i].1 && table@[all[i].0].node
                        == NodeId::node_id_of(all[i].2) && table@[all[i].0].edges@ == edge_ids_of(all[i].3@),
            decreases rest@.len(),
        {
            let ghost before = rest@;
            let (k, d, nk, es) = rest.pop().unwrap();
            let ghost at = rest@.len() as int;
            proof {
                assert(before[at] == all[at]);
                assert(rest@ =~= all.take(at));
            }
            if (k / 0x1_0000_0000) % 2 != 1 || (nk / 0x1_0000_0000) % 2 != 1 || table.contains_key(&k) {
                proof {
                    if table@.contains_key(k) {
                        let i = choose|i: int| rest@.len() <= i < all.len() && all[i].0 == k;
                        assert(all[at].0 == all[i].0);
                    }
                    assert(!port_rows_shaped(all));
                }
                return None;
            }
            let ids = match edge_ids(&es) {
                Some(v) => v,
                None => {
                    proof {
                        assert(!all_shaped(all[at].3@));
                    }
                    return None;
                },
            };
            let ghost keys0 = keys@;
            table.insert(k, PortEntry { data: d, node: NodeId::from_key(nk), edges: ids });
            keys.push(k);
            proof {
                assert forall|x: u64| #[trigger] keys@.to_set().contains(x) <==> table@.dom().contains(x) by {
                    crate::seqs::lemma_push_contains(keys0, k, x);
                    assert(keys@.to_set().contains(x) == keys@.contains(x));
                    assert(keys0.to_set().contains(x) == keys0.contains(x));
                }
                assert(keys@.to_set() =~= table@.dom());
                assert(!keys0.contains(k)) by {
                    assert(keys0.to_set().contains(k) == keys0.contains(k));
                }
                crate::seqs::lemma_push_no_duplicates(keys0, k);
                assert forall|x: u64| #[trigger] table@.contains_key(x) <==> exists|i: int| rest@.len() <= i < all.len() && all[i].0 == x by {
                    if x == k {
                        assert(all[at].0 == x);
                    }
                }
            }
        }
        proof {
            assert(all.take(0) =~= Seq::<(u64, P, u64, Vec<u64>)>::empty());
        }
        Some((table, keys))
    }

    /// The edge table that `rows` describe, with its keys: `None` when a
    /// key repeats or a key, or an end's, is not the form of an issued key.
    fn edge_table(rows: Vec<(u64, E, u64, u64)>) -> (r: Option<(HashMap<u64, EdgeEntry<E>>, Vec<u64>)>)
        ensures
            r is Some <==> edge_rows_shaped(rows@),
            r matches Some(x) ==> {
                &&& x.1@.to_set() == x.0@.dom()
                &&& x.1@.no_duplicates()
                &&& x.1@.len() == rows@.len()
                &&& forall|k: u64| #[trigger] x.0@.contains_key(k) ==> is_issued_shape(k)
                &&& forall|k: u64| #[trigger] x.0@.contains_key(k) <==> exists|i: int| 0 <= i < rows@.len() && rows@[i].0 == k
                &&& forall|i: int|
                    #![trigger rows@[i]]
                    0 <= i < rows@.len() ==> x.0@[rows@[i].0].data == rows@[i].1 && x.0@[rows@[i].0].ends == (
                        PortId::port_id_of(rows@[i].2),
                        PortId::port_id_of(rows@[i].3),
                    )
            },
    {
        let ghost all = rows@;
        let mut rest = rows;
        let mut table: HashMap<u64, EdgeEntry<E>> = HashMap::new();
        let mut keys: Vec<u64> = Vec::new();
        while rest.len() > 0
            invariant
                all == rows@,
                forall|i: int| rest@.len() <= i < all.len() ==> is_issued_shape(#[trigger] all[i].0) && is_issued_shape(all[i].2) && is_issued_shape(all[i].3),
                forall|i: int, j: int| rest@.len() <= i < j < all.len() ==> #[trigger] all[i].0 != #[trigger] all[j].0,
                all.len() == rest@.len() + keys@.len(),
                rest@ == all.take(rest@.len() as int),
                keys@.to_set() == table@.dom(),
                keys@.no_duplicates(),
                forall|k: u64| #[trigger] table@.contains_key(k) ==> is_issued_shape(k),
                forall|k: u64| #[trigger] table@.contains_key(k) <==> exists|i: int| rest@.len() <= i < all.len() && all[i].0 == k,
                forall|i: int|
                    #![trigger all[i]]
                    rest@.len() <= i < all.len() ==> table@[all[i].0].data == all[i].1 && table@[all[i].0].ends == (
                        PortId::port_id_of(all[i].2),
                        PortId::port_id_of(all[i].3),
                    ),
            decreases rest@.len(),
        {
            let ghost before = rest@;
            let (k, d, ka, kb) = rest.pop().unwrap();
            let ghost at = rest@.len() as int;
            proof {
                assert(before[at] == all[at]);
                assert(rest@ =~= all.take(at));
            }
            if (k / 0x1_0000_0000) % 2 != 1 || (ka / 0x1_0000_0000) % 2 != 1 || (kb / 0x1_0000_0000) % 2 != 1
                || table.contains_key(&k) {
                proof {
                    if table@.contains_key(k) {
                        let i = choose|i: int| rest@.len() <= i < all.len() && all[i].0 == k;
                        assert(all[at].0 == all[i].0);
                    }
                    assert(!edge_rows_shaped(all));
                }
                return None;
            }
            let ghost keys0 = keys@;
            table.insert(k, EdgeEntry { data: d, ends: (PortId::from_key(ka), PortId::from_key(kb)) });
            keys.push(k);
            proof {
                assert forall|x: u64| #[trigger] keys@.to_set().contains(x) <==> table@.dom().contains(x) by {
                    crate::seqs::lemma_push_contains(keys0, k, x);
                    assert(keys@.to_set().contains(x) == keys@.contains(x));
                    assert(keys0.to_set().contains(x) == keys0.contains(x));
                }
                assert(keys@.to_set() =~= table@.dom());
                assert(!keys0.contains(k)) by {
                    assert(keys0.to_set().contains(k) == keys0.contains(k));
                }
                crate::seqs::lemma_push_no_duplicates(keys0, k);
                assert forall|x: u64| #[trigger] table@.contains_key(x) <==> exists|i: int| rest@.len() <= i < all.len() && all[i].0 == x by {
                    if x == k {
                        assert(all[at].0 == x);
                    }
                }
            }
        }
        proof {
            assert(all.take(0) =~= Seq::<(u64, E, u64, u64)>::empty());
        }
        Some((table, keys))
    }

    /// Rebuilds a graph from its parts, with the same identifiers: each key
    /// allocator through the slot map's own deserialization, then each
    /// element from its row. It succeeds exactly on loadable parts: each
    /// allocator's slots ones a graph can hold (the sentinel vacant, fewer
    /// than `u32::MAX` slots, no more slots past the sentinel than keys
    /// issued, at most `ISSUE_LIMIT` of them), rows naming distinct elements by
    /// issued keys, exactly the keys live in the slots, and describing a
    /// consistent graph. Everything `export` writes is loadable. The graph returned is that graph, and counts as
    /// issued exactly the keys of the slots' versions, so it never issues
    /// one of them.
    pub fn import(parts: GraphParts<N, P, E>) -> (r: Option<Self>)
        ensures
            r is Some <==> loadable(parts),
            r matches Some(g) ==> {
                &&& g.wf()
                &&& rows_describe(parts, g@)
                &&& forall|n: NodeId| #[trigger] g.issued_nodes().contains(n) <==> issued_keys(parts.node_slots@).contains(n@)
                &&& forall|p: PortId| #[trigger] g.issued_ports().contains(p) <==> issued_keys(parts.port_slots@).contains(p@)
                &&& forall|e: EdgeId| #[trigger] g.issued_edges().contains(e) <==> issued_keys(parts.edge_slots@).contains(e@)
            },
    {
        let ghost whole = parts;
        let GraphParts { node_slots, port_slots, edge_slots, nodes, ports, edges } = parts;
        let (node_keys, nodes_issued) = match restore_slots(&node_slots) {
            Some(x) => x,
            None => {
                return None;
            },
        };
        let (port_keys, ports_issued) = match restore_slots(&port_slots) {
            Some(x) => x,
            None => {
                return None;
            },
        };
        let (edge_keys, edges_issued) = match restore_slots(&edge_slots) {
            Some(x) => x,
            None => {
                return None;
            },
        };
        if nodes.len() > MAX_LIVE || ports.len() > MAX_LIVE || edges.len() > MAX_LIVE {
            return None;
        }
        let (node_table, nkeys) = match Self::node_table(nodes) {
            Some(x) => x,
            None => {
                return None;
            },
        };
        let (port_table, pkeys) = match Self::port_table(ports) {
            Some(x) => x,
            None => {
                return None;
            },
        };
        let (edge_table, ekeys) = match Self::edge_table(edges) {
            Some(x) => x,
            None => {
                return None;
            },
        };
        let nodes_live = keys_are_live(&node_table, &nkeys, &node_slots);
        let ports_live = keys_are_live(&port_table, &pkeys, &port_slots);
        let edges_live = keys_are_live(&edge_table, &ekeys, &edge_slots);
        if !nodes_live || !ports_live || !edges_live {
            proof {
                if loadable(whole) {
                    assert(node_table@.dom() =~= live_keys(whole.node_slots@)) by {
                        assert forall|k: u64| #[trigger] live_keys(whole.node_slots@).contains(k) implies node_table@.dom().contains(k) by {
                            let i = choose|i: int| 0 <= i < whole.nodes@.len() && (|r: (u64, N, Vec<u64>)| r.0)(whole.nodes@[i]) == k;
                            assert(whole.nodes@[i].0 == k);
                        }
                    }
                    assert(port_table@.dom() =~= live_keys(whole.port_slots@)) by {
                        assert forall|k: u64| #[trigger] live_keys(whole.port_slots@).contains(k) implies port_table@.dom().contains(k) by {
                            let i = choose|i: int| 0 <= i < whole.ports@.len() && (|r: (u64, P, u64, Vec<u64>)| r.0)(whole.ports@[i]) == k;
                            assert(whole.ports@[i].0 == k);
                        }
                    }
                    assert(edge_table@.dom() =~= live_keys(whole.edge_slots@)) by {
                        assert forall|k: u64| #[trigger] live_keys(whole.edge_slots@).contains(k) implies edge_table@.dom().contains(k) by {
                            let i = choose|i: int| 0 <= i < whole.edges@.len() && (|r: (u64, E, u64, u64)| r.0)(whole.edges@[i]) == k;
                            assert(whole.edges@[i].0 == k);
                        }
                    }
                }
            }
            return None;
        }
        let g = Graph {
            node_keys,
            port_keys,
            edge_keys,
            nodes: node_table,
            ports: port_table,
            edges: edge_table,
            nodes_issued,
            ports_issued,
            edges_issued,
        };
        proof {
            assert(g.keys_match());
            nkeys@.unique_seq_to_set();
            pkeys@.unique_seq_to_set();
            ekeys@.unique_seq_to_set();
            lemma_issued_keys(node_slots@);
            lemma_issued_keys(port_slots@);
            lemma_issued_keys(edge_slots@);
            assert(g.history_ok());
            assert(g.tables_match());
            g.lemma_view_finite();
            assert forall|n: NodeId| #[trigger] g@.nodes.contains_key(n) <==> exists|i: int|
                0 <= i < whole.nodes@.len() && #[trigger] whole.nodes@[i].0 == n@ by {
                if g@.nodes.contains_key(n) {
                    let i = choose|i: int| 0 <= i < whole.nodes@.len() && whole.nodes@[i].0 == n@;
                    assert(whole.nodes@[i].0 == n@);
                }
            }
            assert forall|p: PortId| #[trigger] g@.ports.contains_key(p) <==> exists|i: int|
                0 <= i < whole.ports@.len() && #[trigger] whole.ports@[i].0 == p@ by {
                if g@.ports.contains_key(p) {
                    let i = choose|i: int| 0 <= i < whole.ports@.len() && whole.ports@[i].0 == p@;
                    assert(whole.ports@[i].0 == p@);
                }
            }
            assert forall|e: EdgeId| #[trigger] g@.edges.contains_key(e) <==> exists|i: int|
                0 <= i < whole.edges@.len() && #[trigger] whole.edges@[i].0 == e@ by {
                if g@.edges.contains_key(e) {
                    let i = choose|i: int| 0 <= i < whole.edges@.len() && whole.edges@[i].0 == e@;
                    assert(whole.edges@[i].0 == e@);
                }
            }
            assert(rows_describe(whole, g@));
        }
        if !g.structure_ok() {
            proof {
                if loadable(whole) {
                    let w = choose|w: GraphView<N, P, E>| w.is_consistent() && rows_describe(whole, w);
                    lemma_rows_determine(whole, w, g@);
                }
            }
            return None;
        }
        proof {
            assert(g@.is_consistent());
            assert(loadable(whole)) by {
                assert forall|k: u64| #[trigger] live_keys(whole.node_slots@).contains(k) <==> exists|i: int|
                    0 <= i < whole.nodes@.len() && (|r: (u64, N, Vec<u64>)| r.0)(whole.nodes@[i]) == k by {
                    if live_keys(whole.node_slots@).contains(k) {
                        let i = choose|i: int| 0 <= i < whole.nodes@.len() && whole.nodes@[i].0 == k;
                        assert((|r: (u64, N, Vec<u64>)| r.0)(whole.nodes@[i]) == k);
                    }
                }
                assert forall|k: u64| #[trigger] live_keys(whole.port_slots@).contains(k) <==> exists|i: int|
                    0 <= i < whole.ports@.len() && (|r: (u64, P, u64, Vec<u64>)| r.0)(whole.ports@[i]) == k by {
                    if live_keys(whole.port_slots@).contains(k) {
                        let i = choose|i: int| 0 <= i < whole.ports@.len() && whole.ports@[i].0 == k;
                        assert((|r: (u64, P, u64, Vec<u64>)| r.0)(whole.ports@[i]) == k);
                    }
                }
                assert forall|k: u64| #[trigger] live_keys(whole.edge_slots@).contains(k) <==> exists|i: int|
                    0 <= i < whole.edges@.len() && (|r: (u64, E, u64, u64)| r.0)(whole.edges@[i]) == k by {
                    if live_keys(whole.edge_slots@).contains(k) {
                        let i = choose|i: int| 0 <= i < whole.edges@.len() && whole.edges@[i].0 == k;
                        assert((|r: (u64, E, u64, u64)| r.0)(whole.edges@[i]) == k);
                    }
                }
                assert(node_rows_shaped(whole.nodes@));
            }
        }
        Some(g)
    }

    /// `x` is this graph saved: its allocators' slots, loadable, and one
    /// row per live element, in slot order and of issued keys, that names
    /// its identifier, data and links.
    pub open spec fn saved_as(&self, x: GraphParts<&N, &P, &E>) -> bool {
        &&& slots_loadable(x.node_slots@)
        &&& slots_loadable(x.port_slots@)
        &&& slots_loadable(x.edge_slots@)
        &&& x.nodes@.len() <= MAX_LIVE
        &&& x.ports@.len() <= MAX_LIVE
        &&& x.edges@.len() <= MAX_LIVE
        &&& node_rows_shaped(x.nodes@)
        &&& port_rows_shaped(x.ports@)
        &&& edge_rows_shaped(x.edges@)
        &&& rows_live(x.nodes@, |r: (u64, &N, Vec<u64>)| r.0, x.node_slots@)
        &&& rows_live(x.ports@, |r: (u64, &P, u64, Vec<u64>)| r.0, x.port_slots@)
        &&& rows_live(x.edges@, |r: (u64, &E, u64, u64)| r.0, x.edge_slots@)
        &&& node_rows(x.nodes@, self@)
        &&& port_rows(x.ports@, self@)
        &&& edge_rows(x.edges@, self@)
        &&& forall|i: int|
            #![trigger x.nodes@[i]]
            0 <= i < x.nodes@.len() ==> *x.nodes@[i].1 == self@.nodes[NodeId::node_id_of(x.nodes@[i].0)].data
        &&& forall|i: int|
            #![trigger x.ports@[i]]
            0 <= i < x.ports@.len() ==> *x.ports@[i].1 == self@.ports[PortId::port_id_of(x.ports@[i].0)].data
        &&& forall|i: int|
            #![trigger x.edges@[i]]
            0 <= i < x.edges@.len() ==> *x.edges@[i].1 == self@.edges[EdgeId::edge_id_of(x.edges@[i].0)].data
        &&& forall|n: NodeId| #[trigger] self.issued_nodes().contains(n) <==> issued_keys(x.node_slots@).contains(n@)
        &&& forall|p: PortId| #[trigger] self.issued_ports().contains(p) <==> issued_keys(x.port_slots@).contains(p@)
        &&& forall|e: EdgeId| #[trigger] self.issued_edges().contains(e) <==> issued_keys(x.edge_slots@).contains(e@)
        &&& forall|n: NodeId| #[trigger] self@.nodes.contains_key(n) <==> live_keys(x.node_slots@).contains(n@)
        &&& forall|p: PortId| #[trigger] self@.ports.contains_key(p) <==> live_keys(x.port_slots@).contains(p@)
        &&& forall|e: EdgeId| #[trigger] self@.edges.contains_key(e) <==> live_keys(x.edge_slots@).contains(e@)
    }

    /// The slot versions read from this graph's allocators are loadable.
    proof fn lemma_export_slots(&self, nv: Seq<u32>, pv: Seq<u32>, ev: Seq<u32>)
        requires
            self.wf(),
            nv.len() >= 1 && nv.len() == slot_span(self.node_keys) && nv[0] == 0,
            pv.len() >= 1 && pv.len() == slot_span(self.port_keys) && pv[0] == 0,
            ev.len() >= 1 && ev.len() == slot_span(self.edge_keys) && ev[0] == 0,
            issued_keys(nv) == slot_issued(self.node_keys),
            issued_keys(pv) == slot_issued(self.port_keys),
            issued_keys(ev) == slot_issued(self.edge_keys),
        ensures
            slots_loadable(nv),
            slots_loadable(pv),
            slots_loadable(ev),
    {
        lemma_issued_keys(nv);
        lemma_issued_keys(pv);
        lemma_issued_keys(ev);
    }

    /// The graph as plain values, for saving: for each kind of element the
    /// versions of its allocator's slots, read through the slot map's own
    /// serialization, and each live element by the 64-bit form of its
    /// identifier, in slot order, with its data and its links.
    /// [`Graph::import`] rebuilds the graph from them, identifiers and
    /// issued identifiers included.
    pub fn export(&self) -> (r: GraphParts<&N, &P, &E>)
        requires
            self.wf(),
        ensures
            self.saved_as(r),
    {
        let node_slots = match slot_versions(&self.node_keys) {
            Some(v) => v,
            None => {
                proof {
                    assert(false);
                }
                Vec::new()
            },
        };
        let port_slots = match slot_versions(&self.port_keys) {
            Some(v) => v,
            None => {
                proof {
                    assert(false);
                }
                Vec::new()
            },
        };
        let edge_slots = match slot_versions(&self.edge_keys) {
            Some(v) => v,
            None => {
                proof {
                    assert(false);
                }
                Vec::new()
            },
        };
        let keys = slots_keys(&self.node_keys);
        let ghost nkeys = keys@;
        let mut nodes: Vec<(u64, &N, Vec<u64>)> = Vec::new();
        let mut i: usize = 0;
        while i < keys.len()
            invariant
                self.wf(),
                keys@.to_set() == self.nodes@.dom(),
                i <= keys@.len(),
                nodes@.len() == i,
                forall|a: int|
                    #![trigger nodes@[a]]
                    0 <= a < i ==> {
                        let n = NodeId::node_id_of(nodes@[a].0);
                        &&& nodes@[a].0 == keys@[a]
                        &&& all_shaped(nodes@[a].2@)
                        &&& self@.nodes.contains_key(n)
                        &&& self@.nodes[n].ports == port_ids_of(nodes@[a].2@)
                        &&& *nodes@[a].1 == self@.nodes[n].data
                    },
            decreases keys@.len() - i,
        {
            let k = keys[i];
            proof {
                assert(keys@.to_set().contains(keys@[i as int]));
            }
            let entry = self.nodes.get(&k).unwrap();
            nodes.push((k, &entry.data, port_keys_of(&entry.ports)));
            i = i + 1;
        }
        let keys = slots_keys(&self.port_keys);
        let ghost pkeys = keys@;
        let mut ports: Vec<(u64, &P, u64, Vec<u64>)> = Vec::new();
        let mut i: usize = 0;
        while i < keys.len()
            invariant
                self.wf(),
                keys@.to_set() == self.ports@.dom(),
                i <= keys@.len(),
                ports@.len() == i,
                forall|a: int|
                    #![trigger ports@[a]]
                    0 <= a < i ==> {
                        let p = PortId::port_id_of(ports@[a].0);
                        &&& ports@[a].0 == keys@[a]
                        &&& is_issued_shape(ports@[a].2)
                        &&& all_shaped(ports@[a].3@)
                        &&& self@.ports.contains_key(p)
                        &&& self@.ports[p].node == NodeId::node_id_of(ports@[a].2)
                        &&& self@.ports[p].edges == edge_ids_of(ports@[a].3@)
                        &&& *ports@[a].1 == self@.ports[p].data
                    },
            decreases keys@.len() - i,
        {
            let k = keys[i];
            proof {
                assert(keys@.to_set().contains(keys@[i as int]));
            }
            let entry = self.ports.get(&k).unwrap();
            ports.push((k, &entry.data, entry.node.key(), edge_keys_of(&entry.edges)));
            i = i + 1;
        }
        let keys = slots_keys(&self.edge_keys);
        let ghost ekeys = keys@;
        let mut edges: Vec<(u64, &E, u64, u64)> = Vec::new();
        let mut i: usize = 0;
        while i < keys.len()
            invariant
                self.wf(),
                keys@.to_set() == self.edges@.dom(),
                i <= keys@.len(),
                edges@.len() == i,
                forall|a: int|
                    #![trigger edges@[a]]
                    0 <= a < i ==> {
                        let e = EdgeId::edge_id_of(edges@[a].0);
                        &&& edges@[a].0 == keys@[a]
                        &&& is_issued_shape(edges@[a].2)
                        &&& is_issued_shape(edges@[a].3)
                        &&& self@.edges.contains_key(e)
                        &&& self@.edges[e].ends == (PortId::port_id_of(edges@[a].2), PortId::port_id_of(edges@[a].3))
                        &&& *edges@[a].1 == self@.edges[e].data
                    },
            decreases keys@.len() - i,
        {
            let k = keys[i];
            proof {
                assert(keys@.to_set().contains(keys@[i as int]));
            }
            let entry = self.edges.get(&k).unwrap();
            edges.push((k, &entry.data, entry.ends.0.key(), entry.ends.1.key()));
            i = i + 1;
        }
        let r = GraphParts { node_slots, port_slots, edge_slots, nodes, ports, edges };
        proof {
            self.lemma_export_slots(node_slots@, port_slots@, edge_slots@);
            lemma_slot_ordered_keys(nkeys);
            lemma_slot_ordered_keys(pkeys);
            lemma_slot_ordered_keys(ekeys);
            self.lemma_view_finite();
            assert(node_rows_shaped(r.nodes@));
            assert(port_rows_shaped(r.ports@));
            assert(edge_rows_shaped(r.edges@));
            assert forall|k: u64| #[trigger] live_keys(r.node_slots@).contains(k) <==> exists|i: int|
                0 <= i < r.nodes@.len() && (|x: (u64, &N, Vec<u64>)| x.0)(r.nodes@[i]) == k by {
                if live_keys(r.node_slots@).contains(k) {
                    assert(nkeys.to_set().contains(k));
                    let a = choose|a: int| 0 <= a < nkeys.len() && nkeys[a] == k;
                    assert((|x: (u64, &N, Vec<u64>)| x.0)(r.nodes@[a]) == k);
                }
                if exists|i: int| 0 <= i < r.nodes@.len() && (|x: (u64, &N, Vec<u64>)| x.0)(r.nodes@[i]) == k {
                    let a = choose|a: int| 0 <= a < r.nodes@.len() && (|x: (u64, &N, Vec<u64>)| x.0)(r.nodes@[a]) == k;
                    assert(nkeys.to_set().contains(nkeys[a]));
                }
            }
            assert forall|k: u64| #[trigger] live_keys(r.port_slots@).contains(k) <==> exists|i: int|
                0 <= i < r.ports@.len() && (|x: (u64, &P, u64, Vec<u64>)| x.0)(r.ports@[i]) == k by {
                if live_keys(r.port_slots@).contains(k) {
                    assert(pkeys.to_set().contains(k));
                    let a = choose|a: int| 0 <= a < pkeys.len() && pkeys[a] == k;
                    assert((|x: (u64, &P, u64, Vec<u64>)| x.0)(r.ports@[a]) == k);
                }
                if exists|i: int| 0 <= i < r.ports@.len() && (|x: (u64, &P, u64, Vec<u64>)| x.0)(r.ports@[i]) == k {
                    let a = choose|a: int| 0 <= a < r.ports@.len() && (|x: (u64, &P, u64, Vec<u64>)| x.0)(r.ports@[a]) == k;
                    assert(pkeys.to_set().contains(pkeys[a]));
                }
            }
            assert forall|k: u64| #[trigger] live_keys(r.edge_slots@).contains(k) <==> exists|i: int|
                0 <= i < r.edges@.len() && (|x: (u64, &E, u64, u64)| x.0)(r.edges@[i]) == k by {
                if live_keys(r.edge_slots@).contains(k) {
                    assert(ekeys.to_set().contains(k));
                    let a = choose|a: int| 0 <= a < ekeys.len() && ekeys[a] == k;
                    assert((|x: (u64, &E, u64, u64)| x.0)(r.edges@[a]) == k);
                }
                if exists|i: int| 0 <= i < r.edges@.len() && (|x: (u64, &E, u64, u64)| x.0)(r.edges@[i]) == k {
                    let a = choose|a: int| 0 <= a < r.edges@.len() && (|x: (u64, &E, u64, u64)| x.0)(r.edges@[a]) == k;
                    assert(ekeys.to_set().contains(ekeys[a]));
                }
            }
            assert forall|n: NodeId| #[trigger] self@.nodes.contains_key(n) implies exists|i: int|
                0 <= i < r.nodes@.len() && #[trigger] r.nodes@[i].0 == n@ by {
                assert(nkeys.to_set().contains(n@));
                let a = choose|a: int| 0 <= a < nkeys.len() && nkeys[a] == n@;
                assert(r.nodes@[a].0 == n@);
            }
            assert forall|p: PortId| #[trigger] self@.ports.contains_key(p) implies exists|i: int|
                0 <= i < r.ports@.len() && #[trigger] r.ports@[i].0 == p@ by {
                assert(pkeys.to_set().contains(p@));
                let a = choose|a: int| 0 <= a < pkeys.len() && pkeys[a] == p@;
                assert(r.ports@[a].0 == p@);
            }
            assert forall|e: EdgeId| #[trigger] self@.edges.contains_key(e) implies exists|i: int|
                0 <= i < r.edges@.len() && #[trigger] r.edges@[i].0 == e@ by {
                assert(ekeys.to_set().contains(e@));
                let a = choose|a: int| 0 <= a < ekeys.len() && ekeys[a] == e@;
                assert(r.edges@[a].0 == e@);
            }
            assert forall|n: NodeId| (exists|i: int| 0 <= i < r.nodes@.len() && #[trigger] r.nodes@[i].0 == n@)
                implies #[trigger] self@.nodes.contains_key(n) by {
                let a = choose|a: int| 0 <= a < r.nodes@.len() && r.nodes@[a].0 == n@;
                assert(self@.nodes.contains_key(NodeId::node_id_of(r.nodes@[a].0)));
            }
            assert forall|p: PortId| (exists|i: int| 0 <= i < r.ports@.len() && #[trigger] r.ports@[i].0 == p@)
                implies #[trigger] self@.ports.contains_key(p) by {
                let a = choose|a: int| 0 <= a < r.ports@.len() && r.ports@[a].0 == p@;
                assert(self@.ports.contains_key(PortId::port_id_of(r.ports@[a].0)));
            }
            assert forall|e: EdgeId| (exists|i: int| 0 <= i < r.edges@.len() && #[trigger] r.edges@[i].0 == e@)
                implies #[trigger] self@.edges.contains_key(e) by {
                let a = choose|a: int| 0 <= a < r.edges@.len() && r.edges@[a].0 == e@;
                assert(self@.edges.contains_key(EdgeId::edge_id_of(r.edges@[a].0)));
            }
        }
        r
    }

    /// Creates an empty graph.
    pub fn new() -> (g: Self)
        ensures
            g.wf(),
            g@ == GraphView::<N, P, E>::empty(),
            g.issued_nodes() == Set::<NodeId>::empty(),
            g.issued_ports() == Set::<PortId>::empty(),
            g.issued_edges() == Set::<EdgeId>::empty(),
            g.issued_node_count() == 0,
            g.issued_port_count() == 0,
            g.issued_edge_count() == 0,
    {
        let g = Graph {
            node_keys: slots_new(),
            port_keys: slots_new(),
            edge_keys: slots_new(),
            nodes: HashMap::new(),
            ports: HashMap::new(),
            edges: HashMap::new(),
            nodes_issued: 0,
            ports_issued: 0,
            edges_issued: 0,
        };
        assert(g@.nodes =~= Map::empty());
        assert(g@.ports =~= Map::empty());
        assert(g@.edges =~= Map::empty());
        proof {
            lemma_empty_consistent::<N, P, E>();
        }
        g
    }

    /// Adds a node (component) carrying `data`. It starts with no ports.
    /// Its identifier was never issued before, live or removed.
    pub fn add_node(&mut self, data: N) -> (id: NodeId)
        requires
            old(self).wf(),
            old(self).issued_node_count() < ISSUE_LIMIT,
        ensures
            final(self).wf(),
            !old(self)@.nodes.contains_key(id),
            !old(self).issued_nodes().contains(id),
            final(self)@ == old(self)@.insert_node(id, data),
            final(self).issued_nodes() == old(self).issued_nodes().insert(id),
            final(self).issued_node_count() == old(self).issued_node_count() + 1,
            final(self).issued_ports() == old(self).issued_ports(),
            final(self).issued_edges() == old(self).issued_edges(),
            final(self).issued_port_count() == old(self).issued_port_count(),
            final(self).issued_edge_count() == old(self).issued_edge_count(),
    {
        proof {
            self.lemma_view_finite();
            self.lemma_live_bound();
        }
        let key = slots_insert(&mut self.node_keys);
        self.nodes_issued = self.nodes_issued + 1;
        self.nodes.insert(key, NodeEntry { data, ports: Vec::new() });
        let id = NodeId::from_key(key);
        proof {
            assert(self@.nodes =~= old(self)@.nodes.insert(
                id,
                NodeView { data, ports: Seq::empty() },
            ));
            assert(self@.ports =~= old(self)@.ports);
            assert(self@.edges =~= old(self)@.edges);
            lemma_insert_node_consistent(old(self)@, id, data);
        }
        id
    }

    /// Adds a port to `node`, after its other ports; its identifier was
    /// never issued before. Fails, changing nothing, when `node` is not live.
    pub fn add_port(&mut self, node: NodeId, data: P) -> (r: Result<PortId, NodeMissing>)
        requires
            old(self).wf(),
            old(self)@.nodes.contains_key(node) ==> old(self).issued_port_count() < ISSUE_LIMIT,
        ensures
            final(self).wf(),
            match r {
                Ok(p) => {
                    &&& old(self)@.nodes.contains_key(node)
                    &&& !old(self)@.ports.contains_key(p)
                    &&& !old(self).issued_ports().contains(p)
                    &&& final(self)@ == old(self)@.insert_port(node, p, data)
                    &&& final(self).issued_ports() == old(self).issued_ports().insert(p)
                    &&& final(self).issued_port_count() == old(self).issued_port_count() + 1
                    &&& final(self).issued_nodes() == old(self).issued_nodes()
                    &&& final(self).issued_edges() == old(self).issued_edges()
                    &&& final(self).issued_node_count() == old(self).issued_node_count()
                    &&& final(self).issued_edge_count() == old(self).issued_edge_count()
                },
                Err(_) => {
                    &&& !old(self)@.nodes.contains_key(node)
                    &&& final(self)@ == old(self)@
                    &&& final(self).same_issued(*old(self))
                },
            },
    {
        proof {
            self.lemma_view_finite();
            self.lemma_live_bound();
        }
        let node_key = node.key();
        if !slots_contains(&self.node_keys, node_key) {
            return Err(NodeMissing);
        }
        let key = slots_insert(&mut self.port_keys);
        self.ports_issued = self.ports_issued + 1;
        self.ports.insert(key, PortEntry { data, node, edges: Vec::new() });
        let port = PortId::from_key(key);
        let mut entry = self.nodes.remove(&node_key).unwrap();
        entry.ports.push(port);
        self.nodes.insert(node_key, entry);
        proof {
            let g = old(self)@;
            assert(self@.nodes =~= g.nodes.insert(
                node,
                NodeView { data: g.nodes[node].data, ports: g.nodes[node].ports.push(port) },
            ));
            assert(self@.ports =~= g.ports.insert(
                port,
                PortView { data, node, edges: Seq::empty() },
            ));
            assert(self@.edges =~= g.edges);
            lemma_insert_port_consistent(g, node, port, data);
        }
        Ok(port)
    }

    /// Connects port `a` to port `b` with an edge carrying `data`, after
    /// `check` has accepted the two ports' data. Parallel edges between the
    /// same pair of ports are allowed.
    ///
    /// Fails, changing nothing, with `SelfLoop` when `a == b`, else with
    /// `PortMissing` when one of the ports is not live, else with `Rejected`
    /// when `check` returns `false`.
    pub fn connect_with<F>(&mut self, a: PortId, b: PortId, data: E, check: F) -> (r: Result<
        EdgeId,
        ConnectError,
    >) where F: FnOnce(&P, &P) -> bool
        requires
            old(self).wf(),
            a != b && old(self)@.ports.contains_key(a) && old(self)@.ports.contains_key(b)
                ==> old(self).issued_edge_count() < ISSUE_LIMIT,
            a != b && old(self)@.ports.contains_key(a) && old(self)@.ports.contains_key(b)
                ==> check.requires((&old(self)@.ports[a].data, &old(self)@.ports[b].data)),
        ensures
            final(self).wf(),
            (r == Err::<EdgeId, ConnectError>(ConnectError::SelfLoop)) == (a == b),
            (r == Err::<EdgeId, ConnectError>(ConnectError::PortMissing)) == (a != b && !(
            old(self)@.ports.contains_key(a) && old(self)@.ports.contains_key(b))),
            r == Err::<EdgeId, ConnectError>(ConnectError::Rejected) ==> check.ensures(
                (&old(self)@.ports[a].data, &old(self)@.ports[b].data),
                false,
            ),
            a != b && old(self)@.ports.contains_key(a) && old(self)@.ports.contains_key(b) ==> (r is Ok || r
                == Err::<EdgeId, ConnectError>(ConnectError::Rejected)),
            r is Err ==> final(self)@ == old(self)@ && final(self).same_issued(*old(self)),
            match r {
                Ok(e) => {
                    &&& a != b
                    &&& old(self)@.ports.contains_key(a)
                    &&& old(self)@.ports.contains_key(b)
                    &&& check.ensures((&old(self)@.ports[a].data, &old(self)@.ports[b].data), true)
                    &&& !old(self)@.edges.contains_key(e)
                    &&& !old(self).issued_edges().contains(e)
                    &&& final(self)@ == old(self)@.insert_edge(e, a, b, data)
                    &&& final(self).issued_edges() == old(self).issued_edges().insert(e)
                    &&& final(self).issued_edge_count() == old(self).issued_edge_count() + 1
                    &&& final(self).issued_nodes() == old(self).issued_nodes()
                    &&& final(self).issued_ports() == old(self).issued_ports()
                    &&& final(self).issued_node_count() == old(self).issued_node_count()
                    &&& final(self).issued_port_count() == old(self).issued_port_count()
                },
                Err(_) => true,
            },
    {
        proof {
            self.lemma_view_finite();
            self.lemma_live_bound();
        }
        if a == b {
            return Err(ConnectError::SelfLoop);
        }
        let a_key = a.key();
        let b_key = b.key();
        let accepted = match (self.ports.get(&a_key), self.ports.get(&b_key)) {
            (Some(pa), Some(pb)) => check(&pa.data, &pb.data),
            _ => {
                return Err(ConnectError::PortMissing);
            },
        };
        if !accepted {
            return Err(ConnectError::Rejected);
        }
        let key = slots_insert(&mut self.edge_keys);
        self.edges_issued = self.edges_issued + 1;
        self.edges.insert(key, EdgeEntry { data, ends: (a, b) });
        let edge = EdgeId::from_key(key);
        let mut entry_a = self.ports.remove(&a_key).unwrap();
        entry_a.edges.push(edge);
        self.ports.insert(a_key, entry_a);
        let mut entry_b = self.ports.remove(&b_key).unwrap();
        entry_b.edges.push(edge);
        self.ports.insert(b_key, entry_b);
        proof {
            let g = old(self)@;
            let h = g.insert_edge(edge, a, b, data);
            assert(self@.nodes =~= h.nodes);
            assert(self@.ports =~= h.ports);
            assert(self@.edges =~= h.edges);
            lemma_insert_edge_consistent(g, edge, a, b, data);
        }
        Ok(edge)
    }

    /// Connects port `a` to port `b` with an edge carrying `data`. Parallel
    /// edges between the same pair of ports are allowed.
    ///
    /// Fails, changing nothing, with `SelfLoop` when `a == b`, else with
    /// `PortMissing` when one of the ports is not live.
    pub fn connect(&mut self, a: PortId, b: PortId, data: E) -> (r: Result<EdgeId, ConnectError>)
        requires
            old(self).wf(),
            a != b && old(self)@.ports.contains_key(a) && old(self)@.ports.contains_key(b)
                ==> old(self).issued_edge_count() < ISSUE_LIMIT,
        ensures
            final(self).wf(),
            (r == Err::<EdgeId, ConnectError>(ConnectError::SelfLoop)) == (a == b),
            (r == Err::<EdgeId, ConnectError>(ConnectError::PortMissing)) == (a != b && !(
            old(self)@.ports.contains_key(a) && old(self)@.ports.contains_key(b))),
            r != Err::<EdgeId, ConnectError>(ConnectError::Rejected),
            (r is Ok) == (a != b && old(self)@.ports.contains_key(a) && old(self)@.ports.contains_key(b)),
            r is Err ==> final(self)@ == old(self)@ && final(self).same_issued(*old(self)),
            match r {
                Ok(e) => {
                    &&& !old(self)@.edges.contains_key(e)
                    &&& !old(self).issued_edges().contains(e)
                    &&& final(self)@ == old(self)@.insert_edge(e, a, b, data)
                    &&& final(self).issued_edges() == old(self).issued_edges().insert(e)
                    &&& final(self).issued_edge_count() == old(self).issued_edge_count() + 1
                    &&& final(self).issued_nodes() == old(self).issued_nodes()
                    &&& final(self).issued_ports() == old(self).issued_ports()
                    &&& final(self).issued_node_count() == old(self).issued_node_count()
                    &&& final(self).issued_port_count() == old(self).issued_port_count()
                },
                Err(_) => true,
            },
    {
        self.connect_with(a, b, data, |_x: &P, _y: &P| -> (ok: bool) ensures ok { true })
    }

    /// Removes an edge and returns its data; no port lists it afterwards.
    /// Returns `None`, changing nothing, when `edge` is not live.
    pub fn disconnect(&mut self, edge: EdgeId) -> (r: Option<E>)
        requires
            old(self).wf(),
        ensures
            final(self).wf(),
            final(self).same_issued(*old(self)),
            match r {
                Some(d) => {
                    &&& old(self)@.edges.contains_key(edge)
                    &&& d == old(self)@.edges[edge].data
                    &&& final(self)@ == old(self)@.remove_edge(edge)
                },
                None => !old(self)@.edges.contains_key(edge) && final(self)@ == old(self)@,
            },
    {
        let key = edge.key();
        let entry = match self.edges.remove(&key) {
            Some(entry) => entry,
            None => {
                proof {
                    assert(self.edges@ =~= old(self).edges@);
                    assert(self@.edges =~= old(self)@.edges);
                }
                return None;
            },
        };
        slots_remove(&mut self.edge_keys, key);
        let (a, b) = entry.ends;
        let ghost g = old(self)@;
        proof {
            assert(g.edges.contains_key(edge));
            assert(g.edges[edge].ends == (a, b));
            assert(g.ports.contains_key(a) && g.ports.contains_key(b) && a != b);
        }
        let a_key = a.key();
        let b_key = b.key();
        let entry_a = self.ports.remove(&a_key).unwrap();
        let kept_a = edges_without(&entry_a.edges, edge);
        self.ports.insert(a_key, PortEntry { data: entry_a.data, node: entry_a.node, edges: kept_a });
        let entry_b = self.ports.remove(&b_key).unwrap();
        let kept_b = edges_without(&entry_b.edges, edge);
        self.ports.insert(b_key, PortEntry { data: entry_b.data, node: entry_b.node, edges: kept_b });
        proof {
            let h = g.remove_edge(edge);
            assert forall|p: PortId| #[trigger] self@.ports.contains_key(p) implies self@.ports[p]
                == h.ports[p] by {
                if p != a && p != b {
                    assert forall|i: int| 0 <= i < g.ports[p].edges.len() implies other_edge(edge)(
                        #[trigger] g.ports[p].edges[i],
                    ) by {
                        let x = g.ports[p].edges[i];
                        assert(g.edges.contains_key(x));
                    }
                    lemma_filter_all(g.ports[p].edges, other_edge(edge));
                }
            }
            assert(self@.ports =~= h.ports);
            assert(self@.nodes =~= h.nodes);
            assert(self@.edges =~= h.edges);
            lemma_remove_edge_consistent(g, edge);
        }
        Some(entry.data)
    }

    /// Removes a port, and with it every edge incident to it; the other
    /// endpoint of each such edge no longer lists it, and the owning node no
    /// longer lists the port. Returns the port's data, or `None`, changing
    /// nothing, when `port` is not live.
    pub fn remove_port(&mut self, port: PortId) -> (r: Option<P>)
        requires
            old(self).wf(),
        ensures
            final(self).wf(),
            final(self).same_issued(*old(self)),
            match r {
                Some(d) => {
                    &&& old(self)@.ports.contains_key(port)
                    &&& d == old(self)@.ports[port].data
                    &&& final(self)@ == old(self)@.remove_port(port)
                },
                None => !old(self)@.ports.contains_key(port) && final(self)@ == old(self)@,
            },
    {
        let key = port.key();
        let entry = match self.ports.remove(&key) {
            Some(entry) => entry,
            None => {
                proof {
                    assert(self.ports@ =~= old(self).ports@);
                    assert(self@.ports =~= old(self)@.ports);
                }
                return None;
            },
        };
        slots_remove(&mut self.port_keys, key);
        let ghost g = old(self)@;
        let ghost s = set![port];
        let ghost l = entry.edges@;
        proof {
            assert(g.ports.contains_key(port));
            assert(g.ports[port].edges == l);
            assert(l.take(0) =~= Seq::<EdgeId>::empty());
            assert forall|q: PortId| #[trigger] self@.ports.contains_key(q) implies self@.ports[q] == (
            PortView {
                data: g.ports[q].data,
                node: g.ports[q].node,
                edges: g.ports[q].edges.filter(edge_not_in(l.take(0))),
            }) by {
                lemma_filter_all(g.ports[q].edges, edge_not_in(l.take(0)));
            }
            assert(self@.ports.dom() =~= g.ports.dom().remove(port));
            assert(self@.nodes =~= g.nodes);
            assert(self@.edges =~= g.edges.remove_keys(l.take(0).to_set()));
        }
        let mut i: usize = 0;
        while i < entry.edges.len()
            invariant
                g == old(self)@,
                g.is_consistent(),
                g.ports.contains_key(port),
                l == entry.edges@,
                l == g.ports[port].edges,
                key == port@,
                0 <= i <= l.len(),
                slot_keys(self.node_keys) == self.nodes@.dom(),
                slot_keys(self.port_keys) == self.ports@.dom(),
                slot_keys(self.edge_keys) == self.edges@.dom(),
                slot_issued(self.node_keys) == slot_issued(old(self).node_keys),
                slot_issued(self.port_keys) == slot_issued(old(self).port_keys),
                slot_issued(self.edge_keys) == slot_issued(old(self).edge_keys),
                slot_span(self.node_keys) == slot_span(old(self).node_keys),
                slot_span(self.port_keys) == slot_span(old(self).port_keys),
                slot_span(self.edge_keys) == slot_span(old(self).edge_keys),
                old(self).history_ok(),
                self.nodes_issued == old(self).nodes_issued,
                self.ports_issued == old(self).ports_issued,
                self.edges_issued == old(self).edges_issued,
                forall|k: u64| #[trigger] slot_keys(self.node_keys).contains(k) ==> slot_keys(old(self).node_keys).contains(k),
                forall|k: u64| #[trigger] slot_keys(self.port_keys).contains(k) ==> slot_keys(old(self).port_keys).contains(k),
                forall|k: u64| #[trigger] slot_keys(self.edge_keys).contains(k) ==> slot_keys(old(self).edge_keys).contains(k),
                forall|k: u64| #[trigger] self.nodes@.contains_key(k) ==> is_issued_shape(k),
                forall|k: u64| #[trigger] self.ports@.contains_key(k) ==> is_issued_shape(k),
                forall|k: u64| #[trigger] self.edges@.contains_key(k) ==> is_issued_shape(k),
                self@.nodes == g.nodes,
                self@.ports.dom() == g.ports.dom().remove(port),
                forall|q: PortId| #[trigger]
                    self@.ports.contains_key(q) ==> self@.ports[q] == (PortView {
                        data: g.ports[q].data,
                        node: g.ports[q].node,
                        edges: g.ports[q].edges.filter(edge_not_in(l.take(i as int))),
                    }),
                self@.edges == g.edges.remove_keys(l.take(i as int).to_set()),
            decreases l.len() - i,
        {
            let edge = entry.edges[i];
            let ghost before = self@;
            let ghost done = l.take(i as int);
            let ghost next = l.take(i as int + 1);
            proof {
                assert(next =~= done.push(edge));
                assert(g.edges.contains_key(edge));
                assert(!done.contains(edge)) by {
                    if done.contains(edge) {
                        let j = choose|j: int| 0 <= j < done.len() && done[j] == edge;
                        assert(l[j] == l[i as int]);
                    }
                }
            }
            let ekey = edge.key();
            proof {
                assert(!done.to_set().contains(edge));
                assert(before.edges.contains_key(edge));
                assert(before.edges[edge] == g.edges[edge]);
            }
            match self.edges.remove(&ekey) {
                Some(e) => {
                    slots_remove(&mut self.edge_keys, ekey);
                    let (a, b) = e.ends;
                    proof {
                        assert(g.edges[edge].ends == (a, b));
                        assert(a == port || b == port);
                    }
                    let other = if a != port { a } else { b };
                    let other_key = other.key();
                    let other_entry = self.ports.remove(&other_key).unwrap();
                    let kept = edges_without(&other_entry.edges, edge);
                    self.ports.insert(
                        other_key,
                        PortEntry { data: other_entry.data, node: other_entry.node, edges: kept },
                    );
                    proof {
                        let fd = edge_not_in(done);
                        let fn_ = edge_not_in(next);
                        assert forall|q: PortId| #[trigger] self@.ports.contains_key(q) implies self@.ports[q]
                            == (PortView {
                            data: g.ports[q].data,
                            node: g.ports[q].node,
                            edges: g.ports[q].edges.filter(fn_),
                        }) by {
                            let sq = g.ports[q].edges;
                            if q == other {
                                lemma_filter_filter(sq, fd, other_edge(edge));
                                assert forall|j: int| 0 <= j < sq.len() implies (|x: EdgeId| fd(x)
                                    && other_edge(edge)(x))(#[trigger] sq[j]) == fn_(sq[j]) by {
                                    lemma_push_contains(done, edge, sq[j]);
                                }
                                lemma_filter_ext(sq, |x: EdgeId| fd(x) && other_edge(edge)(x), fn_);
                            } else {
                                assert forall|j: int| 0 <= j < sq.len() implies fd(#[trigger] sq[j])
                                    == fn_(sq[j]) by {
                                    assert(g.edges.contains_key(sq[j]));
                                    lemma_push_contains(done, edge, sq[j]);
                                    if sq[j] == edge {
                                        assert(g.edges[edge].ends.0 == q || g.edges[edge].ends.1 == q);
                                    }
                                }
                                lemma_filter_ext(sq, fd, fn_);
                            }
                        }
                        assert forall|x: EdgeId| #[trigger] next.to_set().contains(x) <==> (
                        done.to_set().contains(x) || x == edge) by {
                            lemma_push_contains(done, edge, x);
                        }
                        assert(self@.edges =~= before.edges.remove(edge));
                        assert(self@.edges =~= g.edges.remove_keys(next.to_set()));
                        assert(self@.ports.dom() =~= g.ports.dom().remove(port));
                        assert(self@.nodes =~= g.nodes);
                    }
                },
                None => {
                    proof {
                        assert(false);
                    }
                },
            }
            i = i + 1;
        }
        let node_key = entry.node.key();
        proof {
            assert(g.nodes.contains_key(entry.node));
        }
        let node_entry = self.nodes.remove(&node_key).unwrap();
        let kept_ports = ports_without(&node_entry.ports, port);
        self.nodes.insert(node_key, NodeEntry { data: node_entry.data, ports: kept_ports });
        proof {
            let h = g.remove_port(port);
            let fl = edge_not_in(l.take(l.len() as int));
            let ft = |x: EdgeId| !g.touches(x, s);
            assert(l.take(l.len() as int) =~= l);
            assert forall|q: PortId| #[trigger] self@.ports.contains_key(q) implies self@.ports[q] == h.ports[q] by {
                let sq = g.ports[q].edges;
                assert forall|j: int| 0 <= j < sq.len() implies fl(#[trigger] sq[j]) == ft(sq[j]) by {
                    let x = sq[j];
                    assert(g.edges.contains_key(x));
                    let (xa, xb) = g.edges[x].ends;
                    if xa == port || xb == port {
                        assert(g.ports[port].edges.contains(x));
                    }
                    if l.contains(x) {
                        let k = choose|k: int| 0 <= k < l.len() && l[k] == x;
                        assert(g.edges.contains_key(l[k]));
                    }
                }
                lemma_filter_ext(sq, fl, ft);
            }
            assert(self@.ports =~= h.ports);
            assert forall|x: EdgeId| #[trigger] g.edges.contains_key(x) implies (l.to_set().contains(x)
                <==> g.touches(x, s)) by {
                let (xa, xb) = g.edges[x].ends;
                if xa == port || xb == port {
                    assert(g.ports[port].edges.contains(x));
                }
                if l.contains(x) {
                    let k = choose|k: int| 0 <= k < l.len() && l[k] == x;
                    assert(g.edges.contains_key(l[k]));
                }
            }
            assert(self@.edges =~= h.edges);
            assert forall|n: NodeId| #[trigger] self@.nodes.contains_key(n) implies self@.nodes[n] == h.nodes[n] by {
                let sn = g.nodes[n].ports;
                assert forall|j: int| 0 <= j < sn.len() implies other_port(port)(#[trigger] sn[j])
                    == (|p: PortId| !s.contains(p))(sn[j]) by {}
                lemma_filter_ext(sn, other_port(port), |p: PortId| !s.contains(p));
                if n != entry.node {
                    assert forall|j: int| 0 <= j < sn.len() implies other_port(port)(#[trigger] sn[j]) by {
                        assert(g.ports[sn[j]].node == n);
                    }
                    lemma_filter_all(sn, other_port(port));
                }
            }
            assert(self@.nodes =~= h.nodes);
            lemma_without_ports_consistent(g, s);
            self.lemma_view_finite();
            old(self).lemma_view_finite();
            assert(self@.nodes.dom() =~= g.nodes.dom());
            assert(self@.ports.dom().subset_of(g.ports.dom()));
            assert(self@.edges.dom().subset_of(g.edges.dom()));
            vstd::set_lib::lemma_len_subset(self@.ports.dom(), g.ports.dom());
            vstd::set_lib::lemma_len_subset(self@.edges.dom(), g.edges.dom());
        }
        Some(entry.data)
    }

    /// Removes a node, and with it all its ports and every edge incident to
    /// one of them. Returns the node's data, or `None`, changing nothing,
    /// when `node` is not live.
    pub fn remove_node(&mut self, node: NodeId) -> (r: Option<N>)
        requires
            old(self).wf(),
        ensures
            final(self).wf(),
            final(self).same_issued(*old(self)),
            match r {
                Some(d) => {
                    &&& old(self)@.nodes.contains_key(node)
                    &&& d == old(self)@.nodes[node].data
                    &&& final(self)@ == old(self)@.remove_node(node)
                },
                None => !old(self)@.nodes.contains_key(node) && final(self)@ == old(self)@,
            },
    {
        let key = node.key();
        if !slots_contains(&self.node_keys, key) {
            return None;
        }
        let ghost g = old(self)@;
        let owned = self.ports(node);
        let ghost l = owned@;
        proof {
            assert(g.nodes.contains_key(node));
            assert(g.without_ports(l.take(0).to_set()) =~= g) by {
                assert(l.take(0).to_set() =~= Set::<PortId>::empty());
                let w = g.without_ports(Set::<PortId>::empty());
                assert forall|n: NodeId| #[trigger] g.nodes.contains_key(n) implies w.nodes[n] == g.nodes[n] by {
                    lemma_filter_all(g.nodes[n].ports, |p: PortId| !Set::<PortId>::empty().contains(p));
                }
                assert forall|p: PortId| #[trigger] w.ports.contains_key(p) implies w.ports[p] == g.ports[p] by {
                    lemma_filter_all(g.ports[p].edges, |e: EdgeId| !g.touches(e, Set::<PortId>::empty()));
                }
                assert(w.nodes =~= g.nodes);
                assert(w.ports =~= g.ports);
                assert(w.edges =~= g.edges);
            }
        }
        let mut i: usize = 0;
        while i < owned.len()
            invariant
                g == old(self)@,
                g.is_consistent(),
                g.nodes.contains_key(node),
                l == owned@,
                l == g.nodes[node].ports,
                key == node@,
                0 <= i <= l.len(),
                self.wf(),
                self.same_issued(*old(self)),
                self@ == g.without_ports(l.take(i as int).to_set()),
            decreases l.len() - i,
        {
            let port = owned[i];
            let ghost before = self@;
            proof {
                assert(g.ports.contains_key(port));
                assert(!l.take(i as int).contains(port)) by {
                    if l.take(i as int).contains(port) {
                        let j = choose|j: int| 0 <= j < i && l.take(i as int)[j] == port;
                        assert(l[j] == l[i as int]);
                    }
                }
                assert(before.ports.contains_key(port));
            }
            let removed = self.remove_port(port);
            proof {
                lemma_without_ports_twice(g, l.take(i as int).to_set(), set![port]);
                assert(l.take(i as int + 1).to_set() =~= l.take(i as int).to_set().union(set![port])) by {
                    assert(l.take(i as int + 1) =~= l.take(i as int).push(port));
                    assert forall|x: PortId| #[trigger] l.take(i as int + 1).to_set().contains(x) <==> (
                    l.take(i as int).to_set().contains(x) || x == port) by {
                        lemma_push_contains(l.take(i as int), port, x);
                    }
                }
            }
            i = i + 1;
        }
        proof {
            assert(l.take(l.len() as int) =~= l);
            assert(self@.nodes.contains_key(node));
            assert(self@.nodes[node].data == g.nodes[node].data);
        }
        let entry = self.nodes.remove(&key).unwrap();
        slots_remove(&mut self.node_keys, key);
        proof {
            let w = g.without_ports(l.to_set());
            let h = g.remove_node(node);
            assert(self@.nodes =~= h.nodes);
            assert(self@.ports =~= h.ports);
            assert(self@.edges =~= h.edges);
            lemma_remove_node_consistent(g, node);
        }
        Some(entry.data)
    }

    /// Removes everything. Every identifier issued before is stale
    /// afterwards.
    pub fn clear(&mut self)
        requires
            old(self).wf(),
        ensures
            final(self).wf(),
            final(self).same_issued(*old(self)),
            final(self)@ == GraphView::<N, P, E>::empty(),
    {
        slots_clear(&mut self.node_keys);
        slots_clear(&mut self.port_keys);
        slots_clear(&mut self.edge_keys);
        self.nodes.clear();
        self.ports.clear();
        self.edges.clear();
        proof {
            assert(self@.nodes =~= Map::empty());
            assert(self@.ports =~= Map::empty());
            assert(self@.edges =~= Map::empty());
            lemma_empty_consistent::<N, P, E>();
        }
    }

    // ─────────────────────────────── access ─────────────────────────────────

    /// Node data, mutably, if the identifier is live; what is written
    /// through the reference becomes the node's data.
    #[verifier::rlimit(40)]
    #[verifier::spinoff_prover]
    pub fn node_mut(&mut self, id: NodeId) -> (r: Option<&mut N>)
        requires
            old(self).wf(),
        ensures
            match r {
                Some(d) => {
                    &&& old(self)@.nodes.contains_key(id)
                    &&& *d == old(self)@.nodes[id].data
                    &&& final(self)@ == old(self)@.set_node_data(id, *final(d))
                    &&& final(self).wf()
                    &&& final(self).same_issued(*old(self))
                },
                None => {
                    &&& !old(self)@.nodes.contains_key(id)
                    &&& final(self)@ == old(self)@
                    &&& final(self).wf()
                    &&& final(self).same_issued(*old(self))
                },
            },
    {
        proof {
            self.lemma_view_finite();
        }
        match table_get_mut(&mut self.nodes, id.key()) {
            Some(entry) => {
                let d = &mut entry.data;
                proof {
                    lemma_set_node_data_consistent(old(self)@, id, *final(d));
                }
                Some(d)
            },
            None => None,
        }
    }

    /// Port data, mutably, if the identifier is live; what is written
    /// through the reference becomes the port's data.
    #[verifier::rlimit(40)]
    #[verifier::spinoff_prover]
    pub fn port_mut(&mut self, id: PortId) -> (r: Option<&mut P>)
        requires
            old(self).wf(),
        ensures
            match r {
                Some(d) => {
                    &&& old(self)@.ports.contains_key(id)
                    &&& *d == old(self)@.ports[id].data
                    &&& final(self)@ == old(self)@.set_port_data(id, *final(d))
                    &&& final(self).wf()
                    &&& final(self).same_issued(*old(self))
                },
                None => {
                    &&& !old(self)@.ports.contains_key(id)
                    &&& final(self)@ == old(self)@
                    &&& final(self).wf()
                    &&& final(self).same_issued(*old(self))
                },
            },
    {
        proof {
            self.lemma_view_finite();
        }
        match table_get_mut(&mut self.ports, id.key()) {
            Some(entry) => {
                let d = &mut entry.data;
                proof {
                    lemma_set_port_data_consistent(old(self)@, id, *final(d));
                }
                Some(d)
            },
            None => None,
        }
    }

    /// Edge data, mutably, if the identifier is live; what is written
    /// through the reference becomes the edge's data.
    #[verifier::rlimit(40)]
    #[verifier::spinoff_prover]
    pub fn edge_mut(&mut self, id: EdgeId) -> (r: Option<&mut E>)
        requires
            old(self).wf(),
        ensures
            match r {
                Some(d) => {
                    &&& old(self)@.edges.contains_key(id)
                    &&& *d == old(self)@.edges[id].data
                    &&& final(self)@ == old(self)@.set_edge_data(id, *final(d))
                    &&& final(self).wf()
                    &&& final(self).same_issued(*old(self))
                },
                None => {
                    &&& !old(self)@.edges.contains_key(id)
                    &&& final(self)@ == old(self)@
                    &&& final(self).wf()
                    &&& final(self).same_issued(*old(self))
                },
            },
    {
        proof {
            self.lemma_view_finite();
        }
        match table_get_mut(&mut self.edges, id.key()) {
            Some(entry) => {
                let d = &mut entry.data;
                proof {
                    lemma_set_edge_data_consistent(old(self)@, id, *final(d));
                }
                Some(d)
            },
            None => None,
        }
    }

    /// Node data, if the identifier is live. Stale identifiers give `None`.
    pub fn node(&self, id: NodeId) -> (r: Option<&N>)
        requires
            self.wf(),
        ensures
            r == (if self@.nodes.contains_key(id) {
                Some(&self@.nodes[id].data)
            } else {
                None
            }),
    {
        match self.nodes.get(&id.key()) {
            Some(entry) => Some(&entry.data),
            None => None,
        }
    }

    /// Port data, if the identifier is live.
    pub fn port(&self, id: PortId) -> (r: Option<&P>)
        requires
            self.wf(),
        ensures
            r == (if self@.ports.contains_key(id) {
                Some(&self@.ports[id].data)
            } else {
                None
            }),
    {
        match self.ports.get(&id.key()) {
            Some(entry) => Some(&entry.data),
            None => None,
        }
    }

    /// Edge data, if the identifier is live.
    pub fn edge(&self, id: EdgeId) -> (r: Option<&E>)
        requires
            self.wf(),
        ensures
            r == (if self@.edges.contains_key(id) {
                Some(&self@.edges[id].data)
            } else {
                None
            }),
    {
        match self.edges.get(&id.key()) {
            Some(entry) => Some(&entry.data),
            None => None,
        }
    }

    // ────────────────────────────── topology ────────────────────────────────

    /// The node that owns `port`.
    pub fn port_node(&self, port: PortId) -> (r: Option<NodeId>)
        requires
            self.wf(),
        ensures
            r == (if self@.ports.contains_key(port) {
                Some(self@.ports[port].node)
            } else {
                None
            }),
    {
        match self.ports.get(&port.key()) {
            Some(entry) => Some(entry.node),
            None => None,
        }
    }

    /// The two ports an edge connects, in the order passed to `connect`.
    pub fn edge_endpoints(&self, edge: EdgeId) -> (r: Option<(PortId, PortId)>)
        requires
            self.wf(),
        ensures
            r == (if self@.edges.contains_key(edge) {
                Some(self@.edges[edge].ends)
            } else {
                None
            }),
    {
        match self.edges.get(&edge.key()) {
            Some(entry) => Some(entry.ends),
            None => None,
        }
    }

    /// A node's ports, in insertion order; empty for a stale identifier.
    pub fn ports(&self, node: NodeId) -> (r: Vec<PortId>)
        requires
            self.wf(),
        ensures
            r@ == (if self@.nodes.contains_key(node) {
                self@.nodes[node].ports
            } else {
                Seq::empty()
            }),
    {
        match self.nodes.get(&node.key()) {
            Some(entry) => copy_ports(&entry.ports),
            None => Vec::new(),
        }
    }

    /// The edges incident to a port, in insertion order; empty for a stale
    /// identifier.
    pub fn port_edges(&self, port: PortId) -> (r: Vec<EdgeId>)
        requires
            self.wf(),
        ensures
            r@ == (if self@.ports.contains_key(port) {
                self@.ports[port].edges
            } else {
                Seq::empty()
            }),
    {
        match self.ports.get(&port.key()) {
            Some(entry) => copy_edges(&entry.edges),
            None => Vec::new(),
        }
    }

    /// Number of live nodes.
    pub fn node_count(&self) -> (n: usize)
        requires
            self.wf(),
        ensures
            n == self@.nodes.len(),
    {
        proof {
            self.lemma_view_finite();
        }
        slots_len(&self.node_keys)
    }

    /// Number of live ports.
    pub fn port_count(&self) -> (n: usize)
        requires
            self.wf(),
        ensures
            n == self@.ports.len(),
    {
        proof {
            self.lemma_view_finite();
        }
        slots_len(&self.port_keys)
    }

    /// Number of live edges.
    pub fn edge_count(&self) -> (n: usize)
        requires
            self.wf(),
        ensures
            n == self@.edges.len(),
    {
        proof {
            self.lemma_view_finite();
        }
        slots_len(&self.edge_keys)
    }

    /// Is this node identifier live?
    pub fn contains_node(&self, id: NodeId) -> (b: bool)
        requires
            self.wf(),
        ensures
            b == self@.nodes.contains_key(id),
    {
        slots_contains(&self.node_keys, id.key())
    }

    /// Is this port identifier live?
    pub fn contains_port(&self, id: PortId) -> (b: bool)
        requires
            self.wf(),
        ensures
            b == self@.ports.contains_key(id),
    {
        slots_contains(&self.port_keys, id.key())
    }

    /// Is this edge identifier live?
    pub fn contains_edge(&self, id: EdgeId) -> (b: bool)
        requires
            self.wf(),
        ensures
            b == self@.edges.contains_key(id),
    {
        slots_contains(&self.edge_keys, id.key())
    }

    /// The two nodes an edge connects, through its ports, in the order of
    /// its ports.
    pub fn edge_nodes(&self, edge: EdgeId) -> (r: Option<(NodeId, NodeId)>)
        requires
            self.wf(),
        ensures
            r == (if self@.edges.contains_key(edge) {
                Some(
                    (
                        self@.ports[self@.edges[edge].ends.0].node,
                        self@.ports[self@.edges[edge].ends.1].node,
                    ),
                )
            } else {
                None
            }),
    {
        let (a, b) = match self.edge_endpoints(edge) {
            Some(ends) => ends,
            None => {
                return None;
            },
        };
        proof {
            assert(self@.edges.contains_key(edge));
        }
        let na = match self.port_node(a) {
            Some(n) => n,
            None => {
                return None;
            },
        };
        let nb = match self.port_node(b) {
            Some(n) => n,
            None => {
                return None;
            },
        };
        Some((na, nb))
    }

    /// Given an edge and one of its ports, the port at the other end; `None`
    /// when the edge is stale or `port` is not one of its ends.
    pub fn opposite(&self, edge: EdgeId, port: PortId) -> (r: Option<PortId>)
        requires
            self.wf(),
        ensures
            r == self@.opposite(edge, port),
    {
        let (a, b) = match self.edge_endpoints(edge) {
            Some(ends) => ends,
            None => {
                return None;
            },
        };
        if port == a {
            Some(b)
        } else if port == b {
            Some(a)
        } else {
            None
        }
    }

    /// The edges incident to any port of `node`: port by port, each port's
    /// edges in order.
    pub fn node_edges(&self, node: NodeId) -> (r: Vec<EdgeId>)
        requires
            self.wf(),
        ensures
            r@ == self@.node_edges(node),
            self@.nodes.contains_key(node) ==> r@.len() == crate::laws::edge_total(self@, self@.nodes[node].ports),
            forall|e: EdgeId|
                #[trigger] r@.contains(e) <==> self@.nodes.contains_key(node) && exists|i: int|
                    0 <= i < self@.nodes[node].ports.len() && self@.ports[self@.nodes[node].ports[i]].edges.contains(e),
    {
        proof {
            crate::laws::law_node_edges_are_its_ports_edges(self@, node);
        }
        let owned = self.ports(node);
        let ghost lists = self@.node_edge_lists(node);
        let mut r: Vec<EdgeId> = Vec::new();
        let mut i: usize = 0;
        while i < owned.len()
            invariant
                self.wf(),
                i <= owned@.len(),
                self@.nodes.contains_key(node) ==> owned@ == self@.nodes[node].ports,
                !self@.nodes.contains_key(node) ==> owned@.len() == 0 && r@.len() == 0,
                lists == self@.node_edge_lists(node),
                self@.nodes.contains_key(node) ==> r@ == lists.take(i as int).flatten(),
            decreases owned@.len() - i,
        {
            let p = owned[i];
            let es = self.port_edges(p);
            proof {
                assert(self@.ports.contains_key(p));
                assert(lists.take(i as int + 1) =~= lists.take(i as int).push(lists[i as int]));
                lists.take(i as int).lemma_flatten_push(lists[i as int]);
            }
            let mut j: usize = 0;
            let ghost base = r@;
            while j < es.len()
                invariant
                    j <= es@.len(),
                    r@ == base + es@.take(j as int),
                decreases es@.len() - j,
            {
                r.push(es[j]);
                j = j + 1;
                assert(r@ =~= base + es@.take(j as int));
            }
            assert(es@.take(es@.len() as int) =~= es@);
            i = i + 1;
        }
        proof {
            if self@.nodes.contains_key(node) {
                assert(lists.take(owned@.len() as int) =~= lists);
            } else {
                assert(r@ =~= Seq::<EdgeId>::empty());
            }
        }
        r
    }

    /// The nodes reached from port `port` over each of its edges.
    fn port_neighbors(&self, port: PortId) -> (r: Vec<NodeId>)
        requires
            self.wf(),
            self@.ports.contains_key(port),
        ensures
            r@ == self@.port_neighbors(port),
    {
        let es = self.port_edges(port);
        let mut r: Vec<NodeId> = Vec::new();
        let mut j: usize = 0;
        while j < es.len()
            invariant
                self.wf(),
                self@.ports.contains_key(port),
                es@ == self@.ports[port].edges,
                j <= es@.len(),
                r@ == self@.port_neighbors(port).take(j as int),
            decreases es@.len() - j,
        {
            let e = es[j];
            proof {
                assert(self@.edges.contains_key(e));
                let (a, b) = self@.edges[e].ends;
                assert(self@.ports.contains_key(a) && self@.ports.contains_key(b));
            }
            match self.opposite(e, port) {
                Some(q) => match self.port_node(q) {
                    Some(n) => r.push(n),
                    None => {},
                },
                None => {},
            }
            j = j + 1;
            assert(r@ =~= self@.port_neighbors(port).take(j as int));
        }
        assert(self@.port_neighbors(port).take(es@.len() as int) =~= self@.port_neighbors(port));
        r
    }

    /// Neighboring nodes of `node`, one entry per connecting edge (a node
    /// connected by two wires appears twice): port by port, edge by edge.
    pub fn neighbors(&self, node: NodeId) -> (r: Vec<NodeId>)
        requires
            self.wf(),
        ensures
            r@ == self@.neighbors(node),
    {
        let owned = self.ports(node);
        let ghost lists = self@.node_neighbor_lists(node);
        let mut r: Vec<NodeId> = Vec::new();
        let mut i: usize = 0;
        while i < owned.len()
            invariant
                self.wf(),
                i <= owned@.len(),
                self@.nodes.contains_key(node) ==> owned@ == self@.nodes[node].ports,
                !self@.nodes.contains_key(node) ==> owned@.len() == 0 && r@.len() == 0,
                lists == self@.node_neighbor_lists(node),
                self@.nodes.contains_key(node) ==> r@ == lists.take(i as int).flatten(),
            decreases owned@.len() - i,
        {
            let p = owned[i];
            proof {
                assert(self@.ports.contains_key(p));
                assert(lists.take(i as int + 1) =~= lists.take(i as int).push(lists[i as int]));
                lists.take(i as int).lemma_flatten_push(lists[i as int]);
            }
            let ns = self.port_neighbors(p);
            let mut j: usize = 0;
            let ghost base = r@;
            while j < ns.len()
                invariant
                    j <= ns@.len(),
                    r@ == base + ns@.take(j as int),
                decreases ns@.len() - j,
            {
                r.push(ns[j]);
                j = j + 1;
                assert(r@ =~= base + ns@.take(j as int));
            }
            assert(ns@.take(ns@.len() as int) =~= ns@);
            i = i + 1;
        }
        proof {
            if self@.nodes.contains_key(node) {
                assert(lists.take(owned@.len() as int) =~= lists);
            } else {
                assert(r@ =~= Seq::<NodeId>::empty());
            }
        }
        r
    }

    /// The edges directly between ports `a` and `b` (parallel edges
    /// possible), in `a`'s order.
    pub fn edges_between(&self, a: PortId, b: PortId) -> (r: Vec<EdgeId>)
        requires
            self.wf(),
        ensures
            r@ == self@.edges_between(a, b),
    {
        let es = self.port_edges(a);
        let ghost f = |e: EdgeId| self@.opposite(e, a) == Some(b);
        let mut r: Vec<EdgeId> = Vec::new();
        let mut j: usize = 0;
        while j < es.len()
            invariant
                self.wf(),
                f == (|e: EdgeId| self@.opposite(e, a) == Some(b)),
                j <= es@.len(),
                r@ == es@.take(j as int).filter(f),
            decreases es@.len() - j,
        {
            let e = es[j];
            proof {
                assert(es@.take(j as int + 1) =~= es@.take(j as int).push(e));
                es@.take(j as int).lemma_filter_push(e, f);
            }
            if self.opposite(e, a) == Some(b) {
                r.push(e);
            }
            j = j + 1;
        }
        proof {
            assert(es@.take(es@.len() as int) =~= es@);
            if !self@.ports.contains_key(a) {
                assert(es@ =~= Seq::<EdgeId>::empty());
                assert(es@.filter(f) =~= Seq::<EdgeId>::empty()) by {
                    reveal(Seq::filter);
                }
            }
        }
        r
    }

    /// All nodes with their data, in the order of their slots: each live
    /// node once. The order is deterministic but not insertion order.
    pub fn nodes(&self) -> (r: Vec<(NodeId, &N)>)
        requires
            self.wf(),
        ensures
            r@.len() == self@.nodes.len(),
            forall|i: int|
                0 <= i < r@.len() ==> {
                    &&& self@.nodes.contains_key(#[trigger] r@[i].0)
                    &&& *r@[i].1 == self@.nodes[r@[i].0].data
                },
            forall|x: NodeId| #[trigger]
                self@.nodes.contains_key(x) ==> exists|i: int| 0 <= i < r@.len() && r@[i].0 == x,
            forall|i: int, j: int|
                0 <= i < j < r@.len() ==> slot_index(#[trigger] r@[i].0@) < slot_index(
                    #[trigger] r@[j].0@,
                ),
    {
        proof {
            self.lemma_view_finite();
        }
        let keys = slots_keys(&self.node_keys);
        let mut r: Vec<(NodeId, &N)> = Vec::new();
        let mut i: usize = 0;
        while i < keys.len()
            invariant
                self.wf(),
                keys@.to_set() == self.nodes@.dom(),
                forall|a: int, b: int|
                    0 <= a < b < keys@.len() ==> slot_index(#[trigger] keys@[a]) < slot_index(
                        #[trigger] keys@[b],
                    ),
                i <= keys@.len(),
                r@.len() == i,
                forall|a: int| 0 <= a < i ==> (#[trigger] r@[a].0)@ == keys@[a],
                forall|a: int|
                    0 <= a < i ==> self@.nodes.contains_key(#[trigger] r@[a].0) && *r@[a].1
                        == self@.nodes[r@[a].0].data,
            decreases keys@.len() - i,
        {
            let k = keys[i];
            proof {
                assert(keys@.to_set().contains(keys@[i as int]));
            }
            let entry = self.nodes.get(&k).unwrap();
            let id = NodeId::from_key(k);
            r.push((id, &entry.data));
            i = i + 1;
        }
        proof {
            assert forall|x: NodeId| #[trigger] self@.nodes.contains_key(x) implies exists|a: int|
                0 <= a < r@.len() && r@[a].0 == x by {
                assert(keys@.to_set().contains(x@));
                let a = choose|a: int| 0 <= a < keys@.len() && keys@[a] == x@;
                assert(r@[a].0@ == x@);
            }
            lemma_slot_ordered_keys(keys@);
        }
        r
    }

    /// All ports with their data, in the order of their slots: each live
    /// port once. The order is deterministic but not insertion order.
    pub fn all_ports(&self) -> (r: Vec<(PortId, &P)>)
        requires
            self.wf(),
        ensures
            r@.len() == self@.ports.len(),
            forall|i: int|
                0 <= i < r@.len() ==> {
                    &&& self@.ports.contains_key(#[trigger] r@[i].0)
                    &&& *r@[i].1 == self@.ports[r@[i].0].data
                },
            forall|x: PortId| #[trigger]
                self@.ports.contains_key(x) ==> exists|i: int| 0 <= i < r@.len() && r@[i].0 == x,
            forall|i: int, j: int|
                0 <= i < j < r@.len() ==> slot_index(#[trigger] r@[i].0@) < slot_index(
                    #[trigger] r@[j].0@,
                ),
    {
        proof {
            self.lemma_view_finite();
        }
        let keys = slots_keys(&self.port_keys);
        let mut r: Vec<(PortId, &P)> = Vec::new();
        let mut i: usize = 0;
        while i < keys.len()
            invariant
                self.wf(),
                keys@.to_set() == self.ports@.dom(),
                forall|a: int, b: int|
                    0 <= a < b < keys@.len() ==> slot_index(#[trigger] keys@[a]) < slot_index(
                        #[trigger] keys@[b],
                    ),
                i <= keys@.len(),
                r@.len() == i,
                forall|a: int| 0 <= a < i ==> (#[trigger] r@[a].0)@ == keys@[a],
                forall|a: int|
                    0 <= a < i ==> self@.ports.contains_key(#[trigger] r@[a].0) && *r@[a].1
                        == self@.ports[r@[a].0].data,
            decreases keys@.len() - i,
        {
            let k = keys[i];
            proof {
                assert(keys@.to_set().contains(keys@[i as int]));
            }
            let entry = self.ports.get(&k).unwrap();
            let id = PortId::from_key(k);
            r.push((id, &entry.data));
            i = i + 1;
        }
        proof {
            assert forall|x: PortId| #[trigger] self@.ports.contains_key(x) implies exists|a: int|
                0 <= a < r@.len() && r@[a].0 == x by {
                assert(keys@.to_set().contains(x@));
                let a = choose|a: int| 0 <= a < keys@.len() && keys@[a] == x@;
                assert(r@[a].0@ == x@);
            }
            lemma_slot_ordered_keys(keys@);
        }
        r
    }

    /// All edges with their data, in the order of their slots: each live
    /// edge once. The order is deterministic but not insertion order.
    pub fn all_edges(&self) -> (r: Vec<(EdgeId, &E)>)
        requires
            self.wf(),
        ensures
            r@.len() == self@.edges.len(),
            forall|i: int|
                0 <= i < r@.len() ==> {
                    &&& self@.edges.contains_key(#[trigger] r@[i].0)
                    &&& *r@[i].1 == self@.edges[r@[i].0].data
                },
            forall|x: EdgeId| #[trigger]
                self@.edges.contains_key(x) ==> exists|i: int| 0 <= i < r@.len() && r@[i].0 == x,
            forall|i: int, j: int|
                0 <= i < j < r@.len() ==> slot_index(#[trigger] r@[i].0@) < slot_index(
                    #[trigger] r@[j].0@,
                ),
    {
        proof {
            self.lemma_view_finite();
        }
        let keys = slots_keys(&self.edge_keys);
        let mut r: Vec<(EdgeId, &E)> = Vec::new();
        let mut i: usize = 0;
        while i < keys.len()
            invariant
                self.wf(),
                keys@.to_set() == self.edges@.dom(),
                forall|a: int, b: int|
                    0 <= a < b < keys@.len() ==> slot_index(#[trigger] keys@[a]) < slot_index(
                        #[trigger] keys@[b],
                    ),
                i <= keys@.len(),
                r@.len() == i,
                forall|a: int| 0 <= a < i ==> (#[trigger] r@[a].0)@ == keys@[a],
                forall|a: int|
                    0 <= a < i ==> self@.edges.contains_key(#[trigger] r@[a].0) && *r@[a].1
                        == self@.edges[r@[a].0].data,
            decreases keys@.len() - i,
        {
            let k = keys[i];
            proof {
                assert(keys@.to_set().contains(keys@[i as int]));
            }
            let entry = self.edges.get(&k).unwrap();
            let id = EdgeId::from_key(k);
            r.push((id, &entry.data));
            i = i + 1;
        }
        proof {
            assert forall|x: EdgeId| #[trigger] self@.edges.contains_key(x) implies exists|a: int|
                0 <= a < r@.len() && r@[a].0 == x by {
                assert(keys@.to_set().contains(x@));
                let a = choose|a: int| 0 <= a < keys@.len() && keys@[a] == x@;
                assert(r@[a].0@ == x@);
            }
            lemma_slot_ordered_keys(keys@);
        }
        r
    }
}

} // verus!
