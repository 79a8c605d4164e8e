use npe_graph::{ConnectError, EdgeId, Graph, NodeId, NodeMissing, PortId};

fn rc_pair() -> (
    Graph<&'static str, &'static str, &'static str>,
    NodeId,
    PortId,
    PortId,
    EdgeId,
) {
    let mut g = Graph::new();
    let r = g.add_node("R1");
    let ra = g.add_port(r, "a").unwrap();
    let rb = g.add_port(r, "b").unwrap();
    let c = g.add_node("C1");
    let cp = g.add_port(c, "+").unwrap();
    let w = g.connect(rb, cp, "w1").unwrap();
    (g, r, ra, rb, w)
}

#[test]
fn cascade_node_removal() {
    let (mut g, r, ra, rb, w) = rc_pair();
    g.remove_node(r);
    assert!(!g.contains_node(r));
    assert!(!g.contains_port(ra));
    assert!(!g.contains_port(rb));
    assert!(!g.contains_edge(w));
    assert_eq!(g.node_count(), 1); // C1 survives
    assert_eq!(g.edge_count(), 0);
}

#[test]
fn cascade_port_removal_cleans_other_endpoint() {
    let (mut g, _r, _ra, rb, w) = rc_pair();
    g.remove_port(rb);
    assert!(!g.contains_edge(w));
    // No port should still list the dead edge.
    for (p, _) in g.all_ports() {
        assert!(g.port_edges(p).iter().all(|e| g.contains_edge(*e)));
    }
}

#[test]
fn stale_ids_miss_quietly() {
    let (mut g, r, ra, _rb, w) = rc_pair();
    g.remove_node(r);
    assert_eq!(g.node(r), None);
    assert_eq!(g.port(ra), None);
    assert_eq!(g.edge(w), None);
    assert_eq!(g.ports(r).len(), 0);
}

#[test]
fn self_loop_rejected() {
    let (mut g, _r, ra, _rb, _w) = rc_pair();
    assert_eq!(g.connect(ra, ra, "x"), Err(ConnectError::SelfLoop));
}

#[test]
fn quick_example_from_the_crate_docs() {
    let mut g: Graph<&str, &str, &str> = Graph::new();
    let r1 = g.add_node("R1: resistor 10k");
    let r1_a = g.add_port(r1, "a").unwrap();
    let r1_b = g.add_port(r1, "b").unwrap();
    let c1 = g.add_node("C1: cap 100n");
    let c1_pos = g.add_port(c1, "+").unwrap();
    let w = g.connect(r1_b, c1_pos, "wire").unwrap();
    assert_eq!(g.port_node(r1_b), Some(r1));
    assert_eq!(g.edge_endpoints(w), Some((r1_b, c1_pos)));
    assert!(g.neighbors(r1).iter().any(|n| *n == c1));
    g.remove_node(c1);
    assert!(!g.contains_edge(w));
    assert!(g.contains_port(r1_a));
}

#[derive(PartialEq)]
enum Dir {
    In,
    Out,
}

#[test]
fn connect_with_runs_the_check() {
    let mut g: Graph<(), Dir, ()> = Graph::new();
    let a = g.add_node(());
    let b = g.add_node(());
    let out = g.add_port(a, Dir::Out).unwrap();
    let inp = g.add_port(b, Dir::In).unwrap();
    assert!(g.connect_with(out, inp, (), |x, y| *x == Dir::Out && *y == Dir::In).is_ok());
    assert_eq!(
        g.connect_with(inp, out, (), |x, y| *x == Dir::Out && *y == Dir::In),
        Err(ConnectError::Rejected)
    );
    assert_eq!(g.edge_count(), 1);
}

#[test]
fn add_port_to_missing_node_fails() {
    let (mut g, r, _ra, _rb, _w) = rc_pair();
    g.remove_node(r);
    assert_eq!(g.add_port(r, "z"), Err(NodeMissing));
}

#[test]
fn connect_to_missing_port_fails() {
    let (mut g, _r, ra, rb, _w) = rc_pair();
    g.remove_port(rb);
    assert_eq!(g.connect(ra, rb, "x"), Err(ConnectError::PortMissing));
    assert_eq!(g.connect(rb, ra, "x"), Err(ConnectError::PortMissing));
}

#[test]
fn connect_error_messages() {
    assert_eq!(ConnectError::PortMissing.message(), "one or both ports do not exist");
    assert_eq!(ConnectError::SelfLoop.message(), "cannot connect a port to itself");
    assert_eq!(ConnectError::Rejected.message(), "connection rejected by validator");
}

#[test]
fn ports_keep_insertion_order() {
    let mut g: Graph<(), u8, ()> = Graph::new();
    let n = g.add_node(());
    let p0 = g.add_port(n, 0).unwrap();
    let p1 = g.add_port(n, 1).unwrap();
    let p2 = g.add_port(n, 2).unwrap();
    assert_eq!(g.ports(n), vec![p0, p1, p2]);
    g.remove_port(p1);
    assert_eq!(g.ports(n), vec![p0, p2]);
    assert_eq!(g.port(p2), Some(&2));
}

#[test]
fn disconnect_after_connect_restores_the_graph() {
    let (mut g, _r, ra, rb, w) = rc_pair();
    let before_ra = g.port_edges(ra);
    let before_rb = g.port_edges(rb);
    let e = g.connect(ra, rb, "jumper").unwrap();
    assert_eq!(g.edge_count(), 2);
    assert_eq!(g.disconnect(e), Some("jumper"));
    assert_eq!(g.port_edges(ra), before_ra);
    assert_eq!(g.port_edges(rb), before_rb);
    assert_eq!(g.edge_count(), 1);
    assert!(g.contains_edge(w));
    assert_eq!(g.disconnect(e), None);
}

#[test]
fn remove_port_after_add_port_restores_the_ports() {
    let (mut g, r, ra, rb, _w) = rc_pair();
    let p = g.add_port(r, "c").unwrap();
    assert_eq!(g.remove_port(p), Some("c"));
    assert_eq!(g.ports(r), vec![ra, rb]);
    assert_eq!(g.port_count(), 3);
    assert_eq!(g.remove_port(p), None);
}

#[test]
fn remove_node_returns_its_data() {
    let (mut g, r, _ra, _rb, _w) = rc_pair();
    assert_eq!(g.remove_node(r), Some("R1"));
    assert_eq!(g.remove_node(r), None);
    assert_eq!(g.port_count(), 1);
}

#[test]
fn parallel_edges_are_allowed() {
    let (mut g, _r, _ra, rb, w) = rc_pair();
    let cp = g.opposite(w, rb).unwrap();
    let w2 = g.connect(rb, cp, "w2").unwrap();
    assert_ne!(w, w2);
    assert_eq!(g.edges_between(rb, cp), vec![w, w2]);
    assert_eq!(g.edges_between(cp, rb), vec![w, w2]);
}

#[test]
fn opposite_goes_across_and_back() {
    let (g, r, ra, rb, w) = rc_pair();
    let cp = g.opposite(w, rb).unwrap();
    assert_eq!(g.opposite(w, cp), Some(rb));
    assert_eq!(g.opposite(w, ra), None);
    let c = g.port_node(cp).unwrap();
    assert_eq!(g.edge_nodes(w), Some((r, c)));
    assert_eq!(g.node_edges(r), vec![w]);
    assert_eq!(g.neighbors(c), vec![r]);
}

#[test]
fn clear_makes_every_id_stale() {
    let (mut g, r, ra, _rb, w) = rc_pair();
    g.clear();
    assert_eq!(g.node_count(), 0);
    assert_eq!(g.port_count(), 0);
    assert_eq!(g.edge_count(), 0);
    assert!(!g.contains_node(r));
    assert!(!g.contains_port(ra));
    assert!(!g.contains_edge(w));
}

#[test]
fn listings_cover_every_live_element() {
    let (g, r, ra, rb, w) = rc_pair();
    let nodes: Vec<NodeId> = g.nodes().iter().map(|(n, _)| *n).collect();
    assert_eq!(nodes.len(), 2);
    assert!(nodes.contains(&r));
    let ports: Vec<PortId> = g.all_ports().iter().map(|(p, _)| *p).collect();
    assert_eq!(ports.len(), 3);
    assert!(ports.contains(&ra) && ports.contains(&rb));
    let edges: Vec<(EdgeId, &&str)> = g.all_edges();
    assert_eq!(edges, vec![(w, &"w1")]);
}

#[test]
fn default_graph_is_empty() {
    let g: Graph<(), (), ()> = Graph::default();
    assert_eq!(g.node_count(), 0);
    assert_eq!(g.port_count(), 0);
    assert_eq!(g.edge_count(), 0);
}

#[test]
fn remove_node_after_add_node_restores_the_graph() {
    let (mut g, r, ra, rb, w) = rc_pair();
    let n = g.add_node("U9");
    assert_eq!(g.node_count(), 3);
    assert_eq!(g.remove_node(n), Some("U9"));
    assert_eq!(g.node_count(), 2);
    assert_eq!(g.ports(r), vec![ra, rb]);
    assert!(g.contains_edge(w));
}

#[test]
fn mutable_access_writes_through() {
    let (mut g, r, ra, rb, w) = rc_pair();
    *g.node_mut(r).unwrap() = "R2";
    *g.port_mut(ra).unwrap() = "anode";
    *g.edge_mut(w).unwrap() = "w9";
    assert_eq!(g.node(r), Some(&"R2"));
    assert_eq!(g.port(ra), Some(&"anode"));
    assert_eq!(g.edge(w), Some(&"w9"));
    assert_eq!(g[r], "R2");
    assert_eq!(g[ra], "anode");
    assert_eq!(g[w], "w9");
    assert_eq!(g.ports(r), vec![ra, rb]);
    assert_eq!(g.port_edges(rb), vec![w]);
    g.remove_node(r);
    assert!(g.node_mut(r).is_none());
    assert!(g.port_mut(ra).is_none());
    assert!(g.edge_mut(w).is_none());
}

#[test]
fn removed_ids_are_never_issued_again() {
    let mut g: Graph<u32, u32, u32> = Graph::new();
    let mut seen_nodes: Vec<NodeId> = Vec::new();
    let mut seen_ports: Vec<PortId> = Vec::new();
    let mut seen_edges: Vec<EdgeId> = Vec::new();
    for i in 0..50u32 {
        let n = g.add_node(i);
        let p = g.add_port(n, i).unwrap();
        let q = g.add_port(n, i + 1).unwrap();
        let e = g.connect(p, q, i).unwrap();
        assert!(!seen_nodes.contains(&n));
        assert!(!seen_ports.contains(&p) && !seen_ports.contains(&q));
        assert!(!seen_edges.contains(&e));
        seen_nodes.push(n);
        seen_ports.push(p);
        seen_ports.push(q);
        seen_edges.push(e);
        if i % 3 == 0 {
            g.clear();
        } else {
            g.remove_node(n);
        }
    }
}

#[test]
fn neighbors_count_each_joining_edge_end() {
    let (mut g, r, ra, rb, _w) = rc_pair();
    let c = g.port_node(g.opposite(_w, rb).unwrap()).unwrap();
    let cq = g.add_port(c, "-".into()).unwrap();
    g.connect(ra, cq, "second wire".into()).unwrap();
    // R reaches C over two wires, one from each of its ports.
    assert_eq!(g.neighbors(r), vec![c, c]);
    assert_eq!(g.neighbors(c), vec![r, r]);
    let lone = g.add_node("lone".into());
    assert_eq!(g.neighbors(lone), Vec::<NodeId>::new());
}

#[test]
fn clone_keeps_ids_and_issues_fresh_ones_alike() {
    let (mut g, r, ra, rb, w) = rc_pair();
    g.remove_port(ra);
    let mut h = g.clone();
    assert_eq!(h.node(r), Some(&"R1"));
    assert_eq!(h.port_node(rb), Some(r));
    assert_eq!(h.edge_endpoints(w), g.edge_endpoints(w));
    assert!(!h.contains_port(ra));
    // Both go on issuing the same fresh identifiers, never a removed one.
    let p1 = g.add_port(r, "x").unwrap();
    let p2 = h.add_port(r, "x").unwrap();
    assert_eq!(p1, p2);
    assert_ne!(p1, ra);
    // The copies are independent.
    h.remove_node(r);
    assert!(g.contains_node(r));
    assert_eq!(g.port_count(), 3);
}
