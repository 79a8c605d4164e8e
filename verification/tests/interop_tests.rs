use npe_graph::{EdgeId, Graph, NodeId};

#[test]
fn petgraph_projection_keeps_components_and_wires() {
    let mut g: Graph<&str, &str, &str> = Graph::new();
    let a = g.add_node("A");
    let b = g.add_node("B");
    let lone = g.add_node("L");
    let a1 = g.add_port(a, "a1").unwrap();
    let a2 = g.add_port(a, "a2").unwrap();
    let b1 = g.add_port(b, "b1").unwrap();
    let w = g.connect(a1, b1, "w").unwrap();
    let j = g.connect(a1, a2, "jumper").unwrap();
    let pg = g.to_petgraph();
    assert_eq!(pg.node_count(), 3);
    assert_eq!(pg.edge_count(), 2);
    let weights: Vec<NodeId> = pg.node_indices().map(|i| pg[i]).collect();
    assert!(weights.contains(&a) && weights.contains(&b) && weights.contains(&lone));
    for e in pg.edge_indices() {
        let (x, y) = pg.edge_endpoints(e).unwrap();
        let id: EdgeId = pg[e];
        let ends = (pg[x], pg[y]);
        if id == w {
            assert_eq!(ends, (a, b));
        } else {
            assert_eq!(id, j);
            assert_eq!(ends, (a, a)); // a jumper becomes a self-loop
        }
    }
}

#[test]
fn petgraph_projection_of_an_empty_graph() {
    let g: Graph<(), (), ()> = Graph::new();
    let pg = g.to_petgraph();
    assert_eq!(pg.node_count(), 0);
    assert_eq!(pg.edge_count(), 0);
}
