use npe_graph::{Graph, NodeProto, NodeTemplate, PortId};

struct Ic74x00; // quad NAND, abridged pinout

impl NodeTemplate<&'static str, &'static str> for Ic74x00 {
    fn node_data(&self) -> &'static str {
        "74x00"
    }
    fn port_data(&self) -> Vec<&'static str> {
        vec!["1A", "1B", "1Y", "GND", "VCC"]
    }
}

#[test]
fn instantiate_concrete_and_dyn() {
    let mut g: Graph<&str, &str, ()> = Graph::new();

    // Concrete.
    let (u1, u1_pins) = g.instantiate(&Ic74x00);
    assert_eq!(g[u1], "74x00");
    assert_eq!(u1_pins.len(), 5);
    assert_eq!(g[u1_pins[3]], "GND");

    // Through a heterogeneous palette.
    let palette: Vec<Box<dyn NodeTemplate<&str, &str>>> = vec![
        Box::new(Ic74x00),
        Box::new(NodeProto {
            data: "R",
            ports: vec!["a", "b"],
        }),
    ];
    let (u2, _) = g.instantiate(palette[0].as_ref());
    let (r1, r1_pins) = g.instantiate(palette[1].as_ref());
    assert_eq!(g[u2], "74x00");
    assert_eq!(g[r1], "R");
    assert_eq!(r1_pins.len(), 2);

    // Instances are independent: pinout order preserved per node.
    let order: Vec<PortId> = g.ports(u1);
    assert_eq!(order, u1_pins);
}

struct OpAmp;
struct Resistor;

impl NodeTemplate<String, String> for OpAmp {
    fn node_data(&self) -> String {
        "opamp".into()
    }
    fn port_data(&self) -> Vec<String> {
        vec!["in+".into(), "in-".into(), "out".into()]
    }
}

impl NodeTemplate<String, String> for Resistor {
    fn node_data(&self) -> String {
        "R".into()
    }
    fn port_data(&self) -> Vec<String> {
        vec!["a".into(), "b".into()]
    }
}

#[test]
fn palette_of_boxed_templates() {
    let palette: Vec<Box<dyn NodeTemplate<String, String>>> = vec![Box::new(OpAmp), Box::new(Resistor)];
    let mut g: Graph<String, String, ()> = Graph::new();
    let (id, pins) = g.instantiate(palette[0].as_ref());
    assert_eq!(pins.len(), 3);
    assert_eq!(g.node(id).map(String::as_str), Some("opamp"));
    let data: Vec<&str> = pins.iter().map(|p| g.port(*p).unwrap().as_str()).collect();
    assert_eq!(data, vec!["in+", "in-", "out"]);
    for p in &pins {
        assert_eq!(g.port_node(*p), Some(id));
    }
}

#[test]
fn instantiate_parts_stamps_in_order() {
    let mut g: Graph<u8, u8, ()> = Graph::new();
    let (n, pins) = g.instantiate_parts(7, vec![10, 11, 12]);
    assert_eq!(g.node(n), Some(&7));
    assert_eq!(g.ports(n), pins);
    let data: Vec<u8> = pins.iter().map(|p| *g.port(*p).unwrap()).collect();
    assert_eq!(data, vec![10, 11, 12]);
    let (m, none) = g.instantiate_parts(8, vec![]);
    assert!(none.is_empty());
    assert_ne!(m, n);
    assert_eq!(g.port_count(), 3);
}

#[test]
fn node_proto_clones_its_blueprint() {
    let proto = NodeProto { data: String::from("valve"), ports: vec![String::from("in"), String::from("out")] };
    assert_eq!(proto.node_data(), "valve");
    assert_eq!(proto.port_data(), vec!["in", "out"]);
    let mut g: Graph<String, String, ()> = Graph::new();
    let (a, _) = g.instantiate(&proto);
    let (b, _) = g.instantiate(&proto);
    assert_ne!(a, b);
    assert_eq!(g.port_count(), 4);
}

#[test]
fn try_instantiate_stamps_like_instantiate() {
    let mut g: Graph<&str, &str, ()> = Graph::new();
    let (u1, pins) = g.try_instantiate(&Ic74x00).expect("room for one more instance");
    assert_eq!(g[u1], "74x00");
    assert_eq!(pins.len(), 5);
    assert_eq!(g.ports(u1), pins);
    assert_eq!(g[pins[2]], "1Y");
    let palette: Vec<Box<dyn NodeTemplate<&str, &str>>> = vec![Box::new(NodeProto { data: "R", ports: vec!["a", "b"] })];
    let (r1, r_pins) = g.try_instantiate(palette[0].as_ref()).unwrap();
    assert_eq!(g[r1], "R");
    assert_eq!(g[r_pins[1]], "b");
    assert_eq!(g.node_count(), 2);
    assert_eq!(g.port_count(), 7);
}

#[test]
fn issued_counts_grow_and_never_shrink() {
    let mut g: Graph<&str, &str, ()> = Graph::new();
    assert_eq!((g.node_ids_issued(), g.port_ids_issued(), g.edge_ids_issued()), (0, 0, 0));
    let (u1, pins) = g.instantiate(&Ic74x00);
    assert_eq!((g.node_ids_issued(), g.port_ids_issued()), (1, 5));
    g.connect(pins[0], pins[1], ()).unwrap();
    assert_eq!(g.edge_ids_issued(), 1);
    g.remove_node(u1);
    assert_eq!((g.node_ids_issued(), g.port_ids_issued(), g.edge_ids_issued()), (1, 5, 1));
    g.clear();
    g.add_node("x");
    assert_eq!((g.node_ids_issued(), g.port_ids_issued(), g.edge_ids_issued()), (2, 5, 1));
}
