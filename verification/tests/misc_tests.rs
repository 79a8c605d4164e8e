use npe_graph::index::{EdgeIndex, IndexType, NodeIndex, PortIndex};
use npe_graph::traitless::{Direction, Node};
use npe_graph::union_find::UnionFind;
use npe_graph::{Graph, Net, PortId};

#[test]
fn nets_from_the_docs_example() {
    let mut g: Graph<(), (), ()> = Graph::new();
    let n1 = g.add_node(());
    let n2 = g.add_node(());
    let n3 = g.add_node(());
    let a = g.add_port(n1, ()).unwrap();
    let b = g.add_port(n2, ()).unwrap();
    let c = g.add_port(n3, ()).unwrap(); // floating
    g.connect(a, b, ()).unwrap();
    let nets = g.nets();
    assert_eq!(nets.len(), 2); // {a,b} and {c}
    assert!(nets.iter().any(|n| n.ports.len() == 2 && n.edges.len() == 1));
    assert!(nets.iter().any(|n| n.ports == vec![c] && n.edges.is_empty()));
}

#[test]
fn nets_join_ports_through_chains_of_edges() {
    let mut g: Graph<(), (), ()> = Graph::new();
    let n = g.add_node(());
    let m = g.add_node(());
    let p: Vec<PortId> = (0..5).map(|i| if i % 2 == 0 { g.add_port(n, ()).unwrap() } else { g.add_port(m, ()).unwrap() }).collect();
    let e1 = g.connect(p[0], p[1], ()).unwrap();
    let e2 = g.connect(p[1], p[2], ()).unwrap();
    let e3 = g.connect(p[3], p[4], ()).unwrap();
    let e4 = g.connect(p[4], p[3], ()).unwrap();
    let nets = g.nets();
    assert_eq!(nets.len(), 2);
    let first = nets.iter().find(|net| net.ports.contains(&p[0])).unwrap();
    let mut ports = first.ports.clone();
    ports.sort();
    let mut want = vec![p[0], p[1], p[2]];
    want.sort();
    assert_eq!(ports, want);
    let mut edges = first.edges.clone();
    edges.sort();
    let mut want_edges = vec![e1, e2];
    want_edges.sort();
    assert_eq!(edges, want_edges);
    let second = nets.iter().find(|net| net.ports.contains(&p[3])).unwrap();
    assert_eq!(second.ports.len(), 2);
    let mut edges = second.edges.clone();
    edges.sort();
    let mut want_edges = vec![e3, e4];
    want_edges.sort();
    assert_eq!(edges, want_edges);
}

#[test]
fn nets_of_an_empty_graph() {
    let g: Graph<(), (), ()> = Graph::new();
    assert!(g.nets().is_empty());
    let n = Net::default();
    assert!(n.ports.is_empty() && n.edges.is_empty());
}

#[test]
fn union_find_merges_classes() {
    let mut uf = UnionFind::new(5);
    assert_eq!(uf.find(3), 3);
    uf.union(0, 1);
    uf.union(3, 4);
    assert_eq!(uf.find(0), uf.find(1));
    assert_eq!(uf.find(3), uf.find(4));
    assert_ne!(uf.find(0), uf.find(3));
    assert_ne!(uf.find(2), uf.find(0));
    uf.union(1, 4);
    assert_eq!(uf.find(0), uf.find(3));
    assert_ne!(uf.find(2), uf.find(4));
}

#[test]
fn index_types_cut_down_to_their_width() {
    assert_eq!(<usize as IndexType>::new(70000), 70000usize);
    assert_eq!(<u32 as IndexType>::new(70000), 70000u32);
    assert_eq!(<u16 as IndexType>::new(70000), 4464u16);
    assert_eq!(<u8 as IndexType>::new(300), 44u8);
    assert_eq!(7u8.index(), 7);
    assert!(<NodeIndex as IndexType>::new(65537) == NodeIndex(1));
    assert_eq!(<PortIndex as IndexType>::new(12).index(), 12);
    assert_eq!(EdgeIndex(9u16).index(), 9);
    assert!(NodeIndex::<u16>::default() == NodeIndex(0));
}

#[test]
fn traitless_nodes() {
    let n: Node<&str, u8> = Node::new();
    assert_eq!(n.data, None);
    let mut n = n.with_data("pump");
    assert_eq!(n.data, Some("pump"));
    let before = n.clone();
    n.set_index(NodeIndex(4));
    assert_eq!(n.data, Some("pump"));
    assert!(n != before);
    let mut m = before.clone();
    m.set_index(NodeIndex(4));
    assert!(m == n);
    assert!(Direction::In != Direction::Out);
}

#[test]
fn nets_follow_slot_order() {
    let mut g: Graph<(), (), ()> = Graph::new();
    let n = g.add_node(());
    let a = g.add_port(n, ()).unwrap();
    let b = g.add_port(n, ()).unwrap();
    let c = g.add_port(n, ()).unwrap();
    g.remove_port(a);
    // `d` takes the slot that `a` freed, the first one.
    let d = g.add_port(n, ()).unwrap();
    let e = g.connect(c, d, ()).unwrap();
    let nets = g.nets();
    assert_eq!(nets.len(), 2);
    assert_eq!(nets[0].ports, vec![d, c]);
    assert_eq!(nets[0].edges, vec![e]);
    assert_eq!(nets[1].ports, vec![b]);
    assert!(nets[1].edges.is_empty());
}
