//! After a save and load through a serde format, the identifiers stored
//! inside the graph (an edge's ports, a port's node) still resolve to the
//! right live elements, and identifiers held outside keep their meaning.

use npe_graph::{EdgeId, Graph, GraphParts, NodeId, PortId};

type G = Graph<String, String, String>;

type Saved = (
    Vec<u32>,
    Vec<u32>,
    Vec<u32>,
    Vec<(u64, String, Vec<u64>)>,
    Vec<(u64, String, u64, Vec<u64>)>,
    Vec<(u64, String, u64, u64)>,
);

type Saving<'a> = (
    Vec<u32>,
    Vec<u32>,
    Vec<u32>,
    Vec<(u64, &'a String, Vec<u64>)>,
    Vec<(u64, &'a String, u64, Vec<u64>)>,
    Vec<(u64, &'a String, u64, u64)>,
);

fn save(g: &G) -> Saving<'_> {
    let p = g.export();
    (p.node_slots, p.port_slots, p.edge_slots, p.nodes, p.ports, p.edges)
}

fn load(s: Saved) -> G {
    let (node_slots, port_slots, edge_slots, nodes, ports, edges) = s;
    Graph::import(GraphParts { node_slots, port_slots, edge_slots, nodes, ports, edges }).expect("saved parts load")
}

/// A small graph with a deletion, so the surviving keys carry non-trivial
/// generation bits (the removed slot's version was bumped).
fn sample() -> (G, NodeId, PortId, PortId, EdgeId) {
    let mut g: G = Graph::new();

    // Create then remove a node so live slots are not generation 0.
    let scratch = g.add_node("scratch".into());
    g.remove_node(scratch);

    let r = g.add_node("R1".into());
    let ra = g.add_port(r, "a".into()).unwrap();
    let rb = g.add_port(r, "b".into()).unwrap();

    let c = g.add_node("C1".into());
    let cp = g.add_port(c, "+".into()).unwrap();

    let w = g.connect(rb, cp, "wire".into()).unwrap();
    (g, r, ra, rb, w)
}

/// Every structural cross-reference must still hold, and old IDs must still
/// address the same data.
fn assert_intact(g: &G, r: NodeId, ra: PortId, rb: PortId, w: EdgeId) {
    assert_eq!(g.node(r).map(String::as_str), Some("R1"));
    assert_eq!(g.port(ra).map(String::as_str), Some("a"));
    assert_eq!(g.port_node(rb), Some(r)); // port→node ref survived
    let (p, q) = g.edge_endpoints(w).expect("edge survived");
    assert_eq!(p, rb); // edge→port refs survived, same key values
    assert_eq!(
        g.port_node(q).and_then(|n| g.node(n)).map(String::as_str),
        Some("C1")
    );
    assert_eq!(g.node_count(), 2);
    assert_eq!(g.edge_count(), 1);
    // Derived net view recomputes correctly post-load.
    assert!(
        g.nets()
            .iter()
            .any(|n| n.ports.len() == 2 && n.edges.len() == 1)
    );
}

#[test]
fn json_roundtrip() {
    let (g, r, ra, rb, w) = sample();
    let s = serde_json::to_string(&save(&g)).unwrap();
    let g2: G = load(serde_json::from_str(&s).unwrap());
    assert_intact(&g2, r, ra, rb, w);
}

#[test]
fn ron_roundtrip() {
    let (g, r, ra, rb, w) = sample();
    let s = ron::ser::to_string(&save(&g)).unwrap();
    let g2: G = load(ron::from_str(&s).unwrap());
    assert_intact(&g2, r, ra, rb, w);
}

#[test]
fn bincode_roundtrip_non_self_describing() {
    // bincode is not self-describing: every part must load without
    // `deserialize_any`.
    let (g, r, ra, rb, w) = sample();
    let bytes = bincode::serialize(&save(&g)).unwrap();
    let g2: G = load(bincode::deserialize(&bytes).unwrap());
    assert_intact(&g2, r, ra, rb, w);
}

#[test]
fn ids_are_stable_values_across_load() {
    // Not just "resolves to equivalent data" — the actual key value is
    // unchanged, so IDs held outside the graph remain valid after load.
    let (g, _r, _ra, rb, w) = sample();
    let s = serde_json::to_string(&save(&g)).unwrap();
    let g2: G = load(serde_json::from_str(&s).unwrap());
    assert!(g2.contains_port(rb));
    assert!(g2.contains_edge(w));
    assert_eq!(g2.edge_endpoints(w).unwrap().0, rb);
}

#[test]
fn a_loaded_graph_never_reissues_a_removed_id() {
    let (mut g, r, _ra, _rb, _w) = sample();
    let gone = g.add_node("gone".into());
    g.remove_node(gone);
    let s = serde_json::to_string(&save(&g)).unwrap();
    let mut g2: G = load(serde_json::from_str(&s).unwrap());
    assert_eq!(g2.node_ids_issued(), g.node_ids_issued());
    let fresh = g2.add_node("fresh".into());
    assert_ne!(fresh, gone);
    assert_ne!(fresh, r);
    assert!(!g2.contains_node(gone));
}

#[test]
fn import_refuses_inconsistent_parts() {
    let (g, _r, _ra, _rb, _w) = sample();
    let (ns, ps, es, nodes, ports, mut edges) = serde_json::from_str::<Saved>(&serde_json::to_string(&save(&g)).unwrap()).unwrap();
    // An edge whose two ends are the same port.
    edges[0].3 = edges[0].2;
    assert!(Graph::<String, String, String>::import(GraphParts {
        node_slots: ns.clone(),
        port_slots: ps.clone(),
        edge_slots: es.clone(),
        nodes: nodes.clone(),
        ports: ports.clone(),
        edges,
    })
    .is_none());
    // A node row whose key is not live in the node slots.
    let mut bad_nodes = nodes.clone();
    bad_nodes[0].0 += 1;
    assert!(Graph::<String, String, String>::import(GraphParts {
        node_slots: ns,
        port_slots: ps,
        edge_slots: es,
        nodes: bad_nodes,
        ports,
        edges: Vec::new(),
    })
    .is_none());
}

#[test]
fn import_refuses_slot_lists_no_graph_could_hold() {
    let (g, _r, _ra, _rb, _w) = sample();
    let saved: Saved = serde_json::from_str(&serde_json::to_string(&save(&g)).unwrap()).unwrap();
    let parts = |s: &Saved| {
        let (a, b, c, d, e, f) = s.clone();
        GraphParts { node_slots: a, port_slots: b, edge_slots: c, nodes: d, ports: e, edges: f }
    };
    assert!(Graph::<String, String, String>::import(parts(&saved)).is_some());
    // The sentinel slot at an odd version.
    let mut odd_sentinel = saved.clone();
    odd_sentinel.0[0] = 1;
    assert!(Graph::<String, String, String>::import(parts(&odd_sentinel)).is_none());
    // More slots than the keys issued could have made.
    let mut unused_slot = saved.clone();
    unused_slot.0.push(0);
    unused_slot.0.push(0);
    assert!(Graph::<String, String, String>::import(parts(&unused_slot)).is_none());
    // No slots at all.
    let mut no_slots = saved.clone();
    no_slots.2.clear();
    assert!(Graph::<String, String, String>::import(parts(&no_slots)).is_none());
}
