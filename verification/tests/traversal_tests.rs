use npe_graph::{EdgeId, Graph, Link, LinkError, NodeId, OpenCycle, PortId, Step};

type TG = Graph<&'static str, &'static str, &'static str>;

// ── builders ────────────────────────────────────────────────────────────
fn node(g: &mut TG, name: &'static str) -> NodeId {
    g.add_node(name)
}
fn port(g: &mut TG, n: NodeId, name: &'static str) -> PortId {
    g.add_port(n, name).unwrap()
}
fn wire(g: &mut TG, a: PortId, b: PortId) -> EdgeId {
    g.connect(a, b, "w").unwrap()
}

/// Triangle A-B-C: each node has an "in" and an "out" port; edges chain
/// out->in around.
struct Triangle {
    a: NodeId,
    b: NodeId,
    c: NodeId,
    a_in: PortId,
    a_out: PortId,
    b_in: PortId,
    b_out: PortId,
    c_in: PortId,
    c_out: PortId,
    ab: EdgeId,
    bc: EdgeId,
    ca: EdgeId,
}
fn triangle() -> (TG, Triangle) {
    let mut g: TG = Graph::new();
    let (a, b, c) = (node(&mut g, "A"), node(&mut g, "B"), node(&mut g, "C"));
    let a_in = port(&mut g, a, "a_in");
    let a_out = port(&mut g, a, "a_out");
    let b_in = port(&mut g, b, "b_in");
    let b_out = port(&mut g, b, "b_out");
    let c_in = port(&mut g, c, "c_in");
    let c_out = port(&mut g, c, "c_out");
    let ab = wire(&mut g, a_out, b_in);
    let bc = wire(&mut g, b_out, c_in);
    let ca = wire(&mut g, c_out, a_in);
    (
        g,
        Triangle {
            a,
            b,
            c,
            a_in,
            a_out,
            b_in,
            b_out,
            c_in,
            c_out,
            ab,
            bc,
            ca,
        },
    )
}

fn nodeset(mut v: Vec<NodeId>) -> Vec<NodeId> {
    v.sort();
    v.dedup();
    v
}

// ── cycle_rank / connected_components ────────────────────────────────────
#[test]
fn rank_empty_and_singletons() {
    let mut g: TG = Graph::new();
    assert_eq!(g.cycle_rank(), 0);
    assert_eq!(g.connected_components(), 0);
    node(&mut g, "lonely");
    assert_eq!(g.connected_components(), 1);
    assert_eq!(g.cycle_rank(), 0);
}

#[test]
fn rank_single_edge_is_a_tree() {
    let mut g: TG = Graph::new();
    let (a, b) = (node(&mut g, "A"), node(&mut g, "B"));
    let (pa, pb) = (port(&mut g, a, "a"), port(&mut g, b, "b"));
    wire(&mut g, pa, pb);
    assert_eq!(g.cycle_rank(), 0);
    assert_eq!(g.connected_components(), 1);
}

#[test]
fn rank_triangle_one_loop() {
    let (g, _) = triangle();
    assert_eq!(g.cycle_rank(), 1);
    assert_eq!(g.connected_components(), 1);
}

#[test]
fn rank_parallel_edges_one_loop() {
    let mut g: TG = Graph::new();
    let (a, b) = (node(&mut g, "A"), node(&mut g, "B"));
    let (a1, a2) = (port(&mut g, a, "a1"), port(&mut g, a, "a2"));
    let (b1, b2) = (port(&mut g, b, "b1"), port(&mut g, b, "b2"));
    wire(&mut g, a1, b1);
    wire(&mut g, a2, b2);
    assert_eq!(g.cycle_rank(), 1); // E=2, V=2, C=1 -> 1
}

#[test]
fn rank_jumper_counts_as_loop() {
    let mut g: TG = Graph::new();
    let a = node(&mut g, "A");
    let (p1, p2) = (port(&mut g, a, "p1"), port(&mut g, a, "p2"));
    wire(&mut g, p1, p2); // internal jumper: self-loop in the component graph
    assert_eq!(g.connected_components(), 1);
    assert_eq!(g.cycle_rank(), 1); // E=1, V=1, C=1 -> 1
}

#[test]
fn rank_disjoint_components() {
    let mut g: TG = Graph::new();
    let (a, b) = (node(&mut g, "A"), node(&mut g, "B"));
    let (c, d) = (node(&mut g, "C"), node(&mut g, "D"));
    let (pa, pb) = (port(&mut g, a, "a"), port(&mut g, b, "b"));
    wire(&mut g, pa, pb);
    let (pc, pd) = (port(&mut g, c, "c"), port(&mut g, d, "d"));
    wire(&mut g, pc, pd);
    assert_eq!(g.connected_components(), 2);
    assert_eq!(g.cycle_rank(), 0);
}

#[test]
fn rank_figure_eight_two_loops() {
    // Two triangles sharing node A. Rank should be 2.
    let (mut g, t) = triangle();
    let (d, e) = (node(&mut g, "D"), node(&mut g, "E"));
    let a_x = port(&mut g, t.a, "a_x");
    let a_y = port(&mut g, t.a, "a_y");
    let (d1, d2) = (port(&mut g, d, "d1"), port(&mut g, d, "d2"));
    let (e1, e2) = (port(&mut g, e, "e1"), port(&mut g, e, "e2"));
    wire(&mut g, a_x, d1);
    wire(&mut g, d2, e1);
    wire(&mut g, e2, a_y);
    assert_eq!(g.cycle_rank(), 2);
}

#[test]
fn cutset_rank_counts_spanning_forest_edges() {
    let (mut g, _) = triangle();
    assert_eq!(g.cutset_rank(), 2);
    assert_eq!(g.cutset_rank() + g.cycle_rank(), g.edge_count());
    let d = node(&mut g, "D");
    let e = node(&mut g, "E");
    let (pd, pe) = (port(&mut g, d, "d"), port(&mut g, e, "e"));
    wire(&mut g, pd, pe);
    assert_eq!(g.cutset_rank(), 3); // V=5, C=2
    assert_eq!(g.cutset_rank() + g.cycle_rank(), g.edge_count());
    let empty: TG = Graph::new();
    assert_eq!(empty.cutset_rank(), 0);
}

// ── searches ─────────────────────────────────────────────────────────────
#[test]
fn bfs_finds_matching_reachable_nodes() {
    let (mut g, t) = triangle();
    let lone = node(&mut g, "A2");
    let found = g.bfs(t.a, |d| d.starts_with('A') || *d == "C");
    assert_eq!(nodeset(found.clone()), nodeset(vec![t.a, t.c]));
    assert_eq!(found[0], t.a);
    assert!(!found.contains(&lone));
    assert_eq!(nodeset(g.bfs(t.b, |_| true)), nodeset(vec![t.a, t.b, t.c]));
    assert_eq!(g.bfs(lone, |_| true), vec![lone]);
}

#[test]
fn dfs_finds_matching_reachable_nodes() {
    let (mut g, t) = triangle();
    let lone = node(&mut g, "A2");
    let found = g.dfs(t.a, |d| d.starts_with('A') || *d == "C");
    assert_eq!(nodeset(found.clone()), nodeset(vec![t.a, t.c]));
    assert_eq!(found[0], t.a);
    assert!(!found.contains(&lone));
    assert_eq!(nodeset(g.dfs(t.b, |_| true)), nodeset(vec![t.a, t.b, t.c]));
    assert_eq!(g.dfs(lone, |_| false), Vec::<NodeId>::new());
}

#[test]
fn searches_from_a_stale_node_find_nothing() {
    let (mut g, t) = triangle();
    g.remove_node(t.c);
    assert_eq!(g.bfs(t.c, |_| true), Vec::<NodeId>::new());
    assert_eq!(g.dfs(t.c, |_| true), Vec::<NodeId>::new());
    assert_eq!(nodeset(g.bfs(t.a, |_| true)), nodeset(vec![t.a, t.b]));
}

// ── Link::new_checked ─────────────────────────────────────────────────────
#[test]
fn link_checked_valid() {
    let (g, t) = triangle();
    let link = Link::new_checked(&g, t.a_out, t.ab, t.b_in).unwrap();
    assert_eq!(link.source, t.a_out);
    assert_eq!(link.edge, t.ab);
    assert_eq!(link.dest, t.b_in);
}

#[test]
fn link_checked_non_incident_is_bad() {
    let (g, t) = triangle();
    // edge `bc` is not incident to a_out / b_in
    assert!(matches!(
        Link::new_checked(&g, t.a_out, t.bc, t.b_in),
        Err(LinkError::BadLink)
    ));
}

#[test]
fn link_checked_jumper_rejected() {
    let mut g: TG = Graph::new();
    let a = node(&mut g, "A");
    let (p1, p2) = (port(&mut g, a, "p1"), port(&mut g, a, "p2"));
    let j = wire(&mut g, p1, p2);
    assert!(matches!(
        Link::new_checked(&g, p1, j, p2),
        Err(LinkError::JumperEdge)
    ));
}

#[test]
fn link_nodes_resolves_both_ends() {
    let (g, t) = triangle();
    let link = Link::new(t.a_out, t.ab, t.b_in);
    assert_eq!(link.link_nodes(&g), (Some(t.a), Some(t.b)));
}

// ── OpenCycle basics ──────────────────────────────────────────────────────
#[test]
fn open_cycle_starts_empty() {
    let oc = OpenCycle::new();
    assert!(oc.is_empty());
    assert_eq!(oc.last_port(), None);
}

#[test]
fn try_extend_on_empty_seeds_the_cycle() {
    let (g, t) = triangle();
    let mut oc = OpenCycle::new();
    let link = Link::new(t.a_out, t.ab, t.b_in);
    assert!(oc.try_extend(&g, link).is_ok());
    assert!(!oc.is_empty());
    assert_eq!(oc.last_port(), Some(&t.b_in));
}

#[test]
fn build_full_cycle_through_public_api() {
    let (g, t) = triangle();
    let mut oc = OpenCycle::new();
    oc.try_extend(&g, Link::new(t.a_out, t.ab, t.b_in)).unwrap();
    oc.try_extend(&g, Link::new(t.b_out, t.bc, t.c_in)).unwrap();
    oc.try_extend(&g, Link::new(t.c_out, t.ca, t.a_in)).unwrap();
    let closed = oc.try_into_closed(&g).expect("triangle closes");
    assert_eq!(
        nodeset(closed.as_node_list(&g).unwrap()),
        nodeset(vec![t.a, t.b, t.c])
    );
}

#[test]
fn try_extend_adjacent_succeeds() {
    let (g, t) = triangle();
    let mut oc = OpenCycle(vec![Link::new(t.a_out, t.ab, t.b_in)]);
    let next = Link::new(t.b_out, t.bc, t.c_in);
    assert!(oc.try_extend(&g, next).is_ok());
    assert_eq!(oc.last_port(), Some(&t.c_in));
}

#[test]
fn try_extend_non_adjacent_rejected() {
    let (g, t) = triangle();
    let mut oc = OpenCycle(vec![Link::new(t.a_out, t.ab, t.b_in)]);
    // frontier is B; this link sources from C, not B.
    let bad = Link::new(t.c_out, t.ca, t.a_in);
    assert!(matches!(
        oc.try_extend(&g, bad),
        Err(LinkError::NonAdjacentNodes)
    ));
}

#[test]
fn try_extend_from_stale_port_is_bad_and_keeps_the_cycle() {
    let (mut g, t) = triangle();
    let mut oc = OpenCycle(vec![Link::new(t.a_out, t.ab, t.b_in)]);
    g.remove_port(t.b_out);
    assert!(matches!(
        oc.try_extend(&g, Link::new(t.b_out, t.bc, t.c_in)),
        Err(LinkError::BadLink)
    ));
    assert_eq!(oc.links().len(), 1);
    assert_eq!(oc.last_port(), Some(&t.b_in));
}

// ── try_into_closed ───────────────────────────────────────────────────────
#[test]
fn close_open_path_errors() {
    let (g, t) = triangle();
    let oc = OpenCycle(vec![
        Link::new(t.a_out, t.ab, t.b_in),
        Link::new(t.b_out, t.bc, t.c_in),
    ]); // A->B->C, not closed
    assert!(matches!(oc.try_into_closed(&g), Err(LinkError::OpenCycle)));
}

#[test]
fn close_empty_errors() {
    let (g, _) = triangle();
    let oc = OpenCycle::new();
    assert!(matches!(oc.try_into_closed(&g), Err(LinkError::EmptyCycle)));
}

#[test]
fn close_full_triangle_succeeds() {
    let (g, t) = triangle();
    let oc = OpenCycle(vec![
        Link::new(t.a_out, t.ab, t.b_in),
        Link::new(t.b_out, t.bc, t.c_in),
        Link::new(t.c_out, t.ca, t.a_in),
    ]);
    let closed = oc.try_into_closed(&g).expect("triangle closes");
    assert_eq!(
        nodeset(closed.as_node_list(&g).unwrap()),
        nodeset(vec![t.a, t.b, t.c])
    );
}

#[test]
fn node_list_of_a_cycle_with_a_dead_port_errors() {
    let (mut g, t) = triangle();
    let oc = OpenCycle(vec![
        Link::new(t.a_out, t.ab, t.b_in),
        Link::new(t.b_out, t.bc, t.c_in),
        Link::new(t.c_out, t.ca, t.a_in),
    ]);
    let closed = oc.try_into_closed(&g).expect("triangle closes");
    g.remove_port(t.c_in);
    assert!(matches!(
        closed.as_node_list(&g),
        Err(LinkError::CycleNodeNotInGraph)
    ));
}

// ── classify ──────────────────────────────────────────────────────────────
#[test]
fn classify_extends() {
    let (g, t) = triangle();
    let oc = OpenCycle(vec![Link::new(t.a_out, t.ab, t.b_in)]); // frontier B
    match oc.classify(&g, t.bc).unwrap() {
        Step::Extends(link) => {
            assert_eq!(link.source, t.b_out);
            assert_eq!(link.dest, t.c_in);
        }
        _ => panic!("expected Extends"),
    }
}

#[test]
fn classify_closes() {
    let (g, t) = triangle();
    let oc = OpenCycle(vec![
        Link::new(t.a_out, t.ab, t.b_in),
        Link::new(t.b_out, t.bc, t.c_in),
    ]); // A->B->C, frontier C
    match oc.classify(&g, t.ca).unwrap() {
        Step::Closes(link) => assert_eq!(link.dest, t.a_in),
        _ => panic!("expected Closes"),
    }
}

#[test]
fn classify_revisits_interior() {
    // A->B->C, plus a second edge from C back to B. Classifying it must
    // report RevisitsInterior at B (not Closes, since B isn't the start).
    let (mut g, t) = triangle();
    let b_alt = port(&mut g, t.b, "b_alt");
    let c_alt = port(&mut g, t.c, "c_alt");
    let cb = wire(&mut g, c_alt, b_alt); // C -> B back-edge
    let oc = OpenCycle(vec![
        Link::new(t.a_out, t.ab, t.b_in),
        Link::new(t.b_out, t.bc, t.c_in),
    ]);
    match oc.classify(&g, cb).unwrap() {
        Step::RevisitsInterior { at, .. } => assert_eq!(at, t.b),
        _other => panic!("expected RevisitsInterior at B"),
    }
}

#[test]
fn classify_non_adjacent() {
    let (g, t) = triangle();
    let oc = OpenCycle(vec![Link::new(t.a_out, t.ab, t.b_in)]); // frontier B
    // edge `ca` touches C and A, not B.
    assert!(matches!(
        oc.classify(&g, t.ca),
        Err(LinkError::NonAdjacentNodes)
    ));
}

#[test]
fn classify_jumper_at_frontier() {
    let (mut g, t) = triangle();
    // two extra ports on B with an edge between them: a jumper on the frontier
    let bx = port(&mut g, t.b, "bx");
    let by = port(&mut g, t.b, "by");
    let jmp = wire(&mut g, bx, by);
    let oc = OpenCycle(vec![Link::new(t.a_out, t.ab, t.b_in)]); // frontier B
    assert!(matches!(oc.classify(&g, jmp), Err(LinkError::JumperEdge)));
}

#[test]
fn classify_on_empty_errors() {
    let (g, t) = triangle();
    let oc = OpenCycle::new();
    assert!(matches!(oc.classify(&g, t.ab), Err(LinkError::EmptyCycle)));
}

#[test]
fn classify_stale_edge_is_bad() {
    let (mut g, t) = triangle();
    let oc = OpenCycle(vec![Link::new(t.a_out, t.ab, t.b_in)]);
    g.disconnect(t.bc);
    assert!(matches!(oc.classify(&g, t.bc), Err(LinkError::BadLink)));
}

#[test]
fn classified_step_is_accepted_by_extension() {
    let (g, t) = triangle();
    let mut oc = OpenCycle(vec![Link::new(t.a_out, t.ab, t.b_in)]);
    let link = match oc.classify(&g, t.bc).unwrap() {
        Step::Extends(link) => link,
        _ => panic!("expected Extends"),
    };
    assert!(oc.try_extend(&g, link).is_ok());
    let link = match oc.classify(&g, t.ca).unwrap() {
        Step::Closes(link) => link,
        _ => panic!("expected Closes"),
    };
    assert!(oc.try_extend(&g, link).is_ok());
    assert!(oc.try_into_closed(&g).is_ok());
}

#[test]
fn bfs_and_dfs_find_the_same_nodes() {
    let (mut g, t) = triangle();
    let d = node(&mut g, "D");
    let e = node(&mut g, "E");
    let c_x = port(&mut g, t.c, "c_x");
    let d1 = port(&mut g, d, "d1");
    let d2 = port(&mut g, d, "d2");
    let e1 = port(&mut g, e, "e1");
    wire(&mut g, c_x, d1);
    wire(&mut g, d2, e1);
    for start in [t.a, t.b, t.c, d, e] {
        let keep = |s: &&str| *s != "B";
        assert_eq!(nodeset(g.bfs(start, keep)), nodeset(g.dfs(start, keep)));
        assert_eq!(nodeset(g.bfs(start, keep)), nodeset(vec![t.a, t.c, d, e]));
    }
}

#[test]
fn bfs_goes_out_by_distance() {
    // A star at C: C-A, C-B, plus a chain A-D-E.
    let mut g: TG = Graph::new();
    let c = node(&mut g, "C");
    let a = node(&mut g, "A");
    let b = node(&mut g, "B");
    let d = node(&mut g, "D");
    let e = node(&mut g, "E");
    let (c1, c2) = (port(&mut g, c, "c1"), port(&mut g, c, "c2"));
    let (a1, a2) = (port(&mut g, a, "a1"), port(&mut g, a, "a2"));
    let b1 = port(&mut g, b, "b1");
    let (d1, d2) = (port(&mut g, d, "d1"), port(&mut g, d, "d2"));
    let e1 = port(&mut g, e, "e1");
    wire(&mut g, c1, a1);
    wire(&mut g, c2, b1);
    wire(&mut g, a2, d1);
    wire(&mut g, d2, e1);
    let found = g.bfs(c, |_| true);
    assert_eq!(found.len(), 5);
    assert_eq!(found[0], c);
    assert_eq!(nodeset(found[1..3].to_vec()), nodeset(vec![a, b]));
    assert_eq!(found[3], d);
    assert_eq!(found[4], e);
    assert_eq!(g.bfs(e, |_| true), vec![e, d, a, c, b]);
    assert_eq!(g.dfs(e, |_| true)[0], e);
    assert_eq!(g.bfs(c, |s| *s != "C")[0..2].len(), 2);
}

/// The star at C from `bfs_goes_out_by_distance`: C-A, C-B, A-D, D-E.
fn star() -> (TG, [NodeId; 5]) {
    let mut g: TG = Graph::new();
    let c = node(&mut g, "C");
    let a = node(&mut g, "A");
    let b = node(&mut g, "B");
    let d = node(&mut g, "D");
    let e = node(&mut g, "E");
    let (c1, c2) = (port(&mut g, c, "c1"), port(&mut g, c, "c2"));
    let (a1, a2) = (port(&mut g, a, "a1"), port(&mut g, a, "a2"));
    let b1 = port(&mut g, b, "b1");
    let (d1, d2) = (port(&mut g, d, "d1"), port(&mut g, d, "d2"));
    let e1 = port(&mut g, e, "e1");
    wire(&mut g, c1, a1);
    wire(&mut g, c2, b1);
    wire(&mut g, a2, d1);
    wire(&mut g, d2, e1);
    (g, [c, a, b, d, e])
}

#[test]
fn bfs_keeps_neighbor_order_at_equal_distance() {
    let (g, [c, a, b, d, e]) = star();
    assert_eq!(g.bfs(c, |_| true), vec![c, a, b, d, e]);
    assert_eq!(g.bfs(c, |s| *s != "A"), vec![c, b, d, e]);
}

#[test]
fn dfs_takes_the_last_pushed_neighbor_first() {
    let (g, [c, a, b, d, e]) = star();
    // C pushes A then B; B comes off first, then A, which leads on to D and E.
    assert_eq!(g.dfs(c, |_| true), vec![c, b, a, d, e]);
    assert_eq!(g.dfs(c, |s| *s != "B"), vec![c, a, d, e]);
    assert_eq!(g.dfs(a, |_| true), vec![a, d, e, c, b]);
}
