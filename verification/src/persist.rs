//! Saving and loading a graph as plain values, identifiers included.
//!
//! [`GraphParts`] holds a graph as vectors of integers and data: for each
//! kind of element the versions of its key allocator's slots, and each live
//! element by the 64-bit form of its identifier. `Graph::export` writes
//! one, `Graph::import` checks one and rebuilds the graph with the same
//! identifiers, issuing afterwards only identifiers never issued before.

use crate::id::{EdgeId, NodeId, PortId};
use crate::graph::MAX_LIVE;
use crate::model::GraphView;
use crate::slots::{
    is_issued_shape, key_of, slot_issued, slot_keys, slot_span, slots_acceptable, slots_describe, slots_dump, slots_restore, KeySlots, ISSUE_LIMIT,
};
use std::collections::{HashMap, HashSet};
use vstd::prelude::*;

verus! {

broadcast use {vstd::std_specs::hash::group_hash_axioms, crate::id::group_id_lemmas};

/// A graph as plain values.
pub struct GraphParts<N, P, E> {
    /// The version of each slot of the node allocator, slot 0 first; a slot
    /// with an odd version holds a live node.
    pub node_slots: Vec<u32>,
    /// The version of each slot of the port allocator.
    pub port_slots: Vec<u32>,
    /// The version of each slot of the edge allocator.
    pub edge_slots: Vec<u32>,
    /// Each node: its identifier, its data and its ports in order.
    pub nodes: Vec<(u64, N, Vec<u64>)>,
    /// Each port: its identifier, its data, its node and its edges in order.
    pub ports: Vec<(u64, P, u64, Vec<u64>)>,
    /// Each edge: its identifier, its data and its two ports in order.
    pub edges: Vec<(u64, E, u64, u64)>,
}

/// The slots of an allocator given by their versions, each with whether it
/// is occupied: a slot is occupied when its version is odd.
pub open spec fn slot_pairs(versions: Seq<u32>) -> Seq<(Option<()>, u32)> {
    versions.map_values(|v: u32| (if v % 2 == 1 { Some(()) } else { None }, v))
}

/// The keys live in the allocator whose slot versions are `vs`: for each
/// slot but the first, its key at its version where that is odd.
pub open spec fn live_keys(vs: Seq<u32>) -> Set<u64> {
    Set::new(|k: u64| exists|i: int| 1 <= i < vs.len() && #[trigger] vs[i] % 2 == 1 && k == key_of(i, vs[i] as int))
}

/// The keys issued by the allocator whose slot versions are `vs`: for each
/// slot but the first, its keys at every odd version up to its own.
pub open spec fn issued_keys(vs: Seq<u32>) -> Set<u64> {
    Set::new(|k: u64| exists|i: int, v: int| 1 <= i < vs.len() && 1 <= v <= vs[i] && v % 2 == 1 && k == #[trigger] key_of(i, v))
}

/// How many keys the slots `1..n` of versions `vs` have issued: a slot at
/// version `v` has issued one key per odd version up to `v`.
pub open spec fn issued_upto(vs: Seq<u32>, n: int) -> nat
    decreases n,
{
    if n <= 1 {
        0
    } else {
        issued_upto(vs, n - 1) + ((vs[n - 1] as nat + 1) / 2) as nat
    }
}

/// The keys that slot `i` issues up to version `v`: one per odd version.
pub open spec fn slot_issued_upto(i: int, v: int) -> Set<u64> {
    Set::new(|k: u64| exists|w: int| 1 <= w <= v && w % 2 == 1 && k == #[trigger] key_of(i, w))
}

/// The keys that the slots `1..n` of versions `vs` have issued.
pub open spec fn issued_prefix(vs: Seq<u32>, n: int) -> Set<u64> {
    Set::new(|k: u64| exists|i: int, v: int| 1 <= i < n && 1 <= v <= vs[i] && v % 2 == 1 && k == #[trigger] key_of(i, v))
}

/// A slot issues one key per odd version up to its own.
proof fn lemma_slot_issued_upto(i: int, v: int)
    requires
        0 <= i < 0x1_0000_0000,
        0 <= v < 0x1_0000_0000,
    ensures
        slot_issued_upto(i, v).finite(),
        slot_issued_upto(i, v).len() == (v + 1) / 2,
    decreases v,
{
    if v == 0 {
        assert(slot_issued_upto(i, 0) =~= Set::<u64>::empty());
    } else {
        lemma_slot_issued_upto(i, v - 1);
        if v % 2 == 1 {
            let k = key_of(i, v) as u64;
            assert(k == key_of(i, v));
            assert(slot_issued_upto(i, v) =~= slot_issued_upto(i, v - 1).insert(k)) by {
                assert forall|x: u64| slot_issued_upto(i, v).contains(x) implies #[trigger] slot_issued_upto(i, v - 1).insert(k).contains(x) by {
                    let w = choose|w: int| 1 <= w <= v && w % 2 == 1 && x == #[trigger] key_of(i, w);
                    if w < v {
                        assert(slot_issued_upto(i, v - 1).contains(x));
                    }
                }
            }
            assert(!slot_issued_upto(i, v - 1).contains(k)) by {
                if slot_issued_upto(i, v - 1).contains(k) {
                    let w = choose|w: int| 1 <= w <= v - 1 && w % 2 == 1 && k == #[trigger] key_of(i, w);
                    assert(key_of(i, w) == key_of(i, v));
                }
            }
        } else {
            assert(slot_issued_upto(i, v) =~= slot_issued_upto(i, v - 1)) by {
                assert forall|x: u64| slot_issued_upto(i, v).contains(x) implies #[trigger] slot_issued_upto(i, v - 1).contains(x) by {
                    let w = choose|w: int| 1 <= w <= v && w % 2 == 1 && x == #[trigger] key_of(i, w);
                    assert(w != v);
                }
            }
        }
    }
}

/// The slots `1..n` together issue as many keys as their counts add up
/// to: different slots issue different keys.
proof fn lemma_issued_prefix(vs: Seq<u32>, n: int)
    requires
        1 <= n <= vs.len(),
        vs.len() <= 0x1_0000_0000,
    ensures
        issued_prefix(vs, n).finite(),
        issued_prefix(vs, n).len() == issued_upto(vs, n),
    decreases n,
{
    if n == 1 {
        assert(issued_prefix(vs, 1) =~= Set::<u64>::empty());
    } else {
        lemma_issued_prefix(vs, n - 1);
        let j = n - 1;
        lemma_slot_issued_upto(j, vs[j] as int);
        let a = issued_prefix(vs, j);
        let b = slot_issued_upto(j, vs[j] as int);
        assert(issued_prefix(vs, n) =~= a + b) by {
            assert forall|x: u64| #[trigger] issued_prefix(vs, n).contains(x) implies (a + b).contains(x) by {
                let (i, v) = choose|i: int, v: int| 1 <= i < n && 1 <= v <= vs[i] && v % 2 == 1 && x == #[trigger] key_of(i, v);
                if i < j {
                    assert(a.contains(x));
                } else {
                    assert(b.contains(x));
                }
            }
            assert forall|x: u64| #[trigger] (a + b).contains(x) implies issued_prefix(vs, n).contains(x) by {
                if a.contains(x) {
                    let (i, v) = choose|i: int, v: int| 1 <= i < j && 1 <= v <= vs[i] && v % 2 == 1 && x == #[trigger] key_of(i, v);
                    assert(key_of(i, v) == x);
                } else {
                    let w = choose|w: int| 1 <= w <= vs[j] && w % 2 == 1 && x == #[trigger] key_of(j, w);
                    assert(key_of(j, w) == x);
                }
            }
        }
        assert(a.disjoint(b)) by {
            assert forall|x: u64| a.contains(x) implies !b.contains(x) by {
                let (i, v) = choose|i: int, v: int| 1 <= i < j && 1 <= v <= vs[i] && v % 2 == 1 && x == #[trigger] key_of(i, v);
                if b.contains(x) {
                    let w = choose|w: int| 1 <= w <= vs[j] && w % 2 == 1 && x == #[trigger] key_of(j, w);
                    assert(key_of(i, v) == key_of(j, w));
                    assert(false) by (nonlinear_arith)
                        requires
                            v * 0x1_0000_0000 + i == w * 0x1_0000_0000 + j,
                            1 <= i < j,
                            j < 0x1_0000_0000,
                    ;
                }
            }
        }
        vstd::set_lib::lemma_set_disjoint_lens(a, b);
    }
}

/// The keys live in an allocator are among those it issued, and it has
/// issued as many keys as its slots' counts add up to.
pub proof fn lemma_issued_keys(vs: Seq<u32>)
    requires
        1 <= vs.len() <= 0x1_0000_0000,
    ensures
        issued_keys(vs).finite(),
        issued_keys(vs).len() == issued_upto(vs, vs.len() as int),
        live_keys(vs).subset_of(issued_keys(vs)),
{
    lemma_issued_prefix(vs, vs.len() as int);
    assert(issued_keys(vs) =~= issued_prefix(vs, vs.len() as int));
    assert forall|k: u64| live_keys(vs).contains(k) implies #[trigger] issued_keys(vs).contains(k) by {
        let i = choose|i: int| 1 <= i < vs.len() && #[trigger] vs[i] % 2 == 1 && k == key_of(i, vs[i] as int);
        assert(key_of(i, vs[i] as int) == k);
    }
}

/// Counting issued keys slot by slot never goes down.
proof fn lemma_issued_upto_grows(vs: Seq<u32>, m: int, n: int)
    requires
        m <= n,
    ensures
        issued_upto(vs, m) <= issued_upto(vs, n),
    decreases n - m,
{
    if m < n {
        lemma_issued_upto_grows(vs, m, n - 1);
    }
}

/// Slot versions that make a key allocator a graph can hold: the sentinel
/// at an even version, fewer than `u32::MAX` slots, at most `ISSUE_LIMIT`
/// keys issued, and no more slots past the sentinel than keys issued, as
/// every slot is made by issuing a key in it.
pub open spec fn slots_loadable(vs: Seq<u32>) -> bool {
    &&& 1 <= vs.len() < 0xffff_ffff
    &&& vs[0] % 2 == 0
    &&& issued_upto(vs, vs.len() as int) <= ISSUE_LIMIT
    &&& vs.len() <= issued_upto(vs, vs.len() as int) + 1
}

/// Rebuilds, through the slot map's own deserialization, the key allocator
/// whose slot versions are `vs`, with the number of keys it has issued:
/// `None` exactly when the versions are not loadable.
pub(crate) fn restore_slots(vs: &Vec<u32>) -> (r: Option<(KeySlots, usize)>)
    ensures
        r is Some <==> slots_loadable(vs@),
        r matches Some(x) ==> {
            &&& slot_keys(x.0) == live_keys(vs@)
            &&& slot_issued(x.0) == issued_keys(vs@)
            &&& slot_issued(x.0).finite()
            &&& x.1 == slot_issued(x.0).len()
            &&& slot_span(x.0) == vs@.len()
        },
{
    if vs.len() == 0 || vs.len() >= 0xffff_ffff || vs[0] % 2 != 0 {
        return None;
    }
    let mut total: usize = 0;
    let mut pairs: Vec<(Option<()>, u32)> = Vec::new();
    let v0 = vs[0];
    pairs.push((if v0 % 2 == 1 { Some(()) } else { None }, v0));
    proof {
        assert(pairs@ =~= slot_pairs(vs@.take(1)));
    }
    let mut i: usize = 1;
    while i < vs.len()
        invariant
            1 <= i <= vs@.len(),
            total == issued_upto(vs@, i as int),
            total <= ISSUE_LIMIT,
            pairs@ == slot_pairs(vs@.take(i as int)),
        decreases vs@.len() - i,
    {
        let v = vs[i];
        let add: usize = (v / 2 + v % 2) as usize;
        if add > ISSUE_LIMIT - total {
            proof {
                lemma_issued_upto_grows(vs@, i as int + 1, vs@.len() as int);
            }
            return None;
        }
        total = total + add;
        pairs.push((if v % 2 == 1 { Some(()) } else { None }, v));
        proof {
            assert(vs@.take(i as int + 1) =~= vs@.take(i as int).push(v));
            assert(pairs@ =~= slot_pairs(vs@.take(i as int + 1)));
        }
        i = i + 1;
    }
    proof {
        assert(vs@.take(vs@.len() as int) =~= vs@);
    }
    if vs.len() - 1 > total {
        return None;
    }
    proof {
        let ps = slot_pairs(vs@);
        assert(ps == pairs@);
        assert(slots_acceptable(ps));
    }
    match slots_restore(&pairs) {
        Some(m) => {
            proof {
                let ps = slot_pairs(vs@);
                assert(ps == pairs@);
                assert(slots_describe(ps, slot_keys(m), slot_issued(m)));
                assert(slot_keys(m) =~= live_keys(vs@)) by {
                    assert forall|k: u64| #[trigger] slot_keys(m).contains(k) implies live_keys(vs@).contains(k) by {
                        let i = choose|i: int| 1 <= i < ps.len() && #[trigger] ps[i].0 is Some && k == key_of(i, ps[i].1 as int);
                        assert(vs@[i] % 2 == 1);
                    }
                    assert forall|k: u64| #[trigger] live_keys(vs@).contains(k) implies slot_keys(m).contains(k) by {
                        let i = choose|i: int| 1 <= i < vs@.len() && #[trigger] vs@[i] % 2 == 1 && k == key_of(i, vs@[i] as int);
                        assert(ps[i].0 is Some);
                    }
                }
                assert(slot_issued(m) =~= issued_keys(vs@)) by {
                    assert forall|k: u64| #[trigger] slot_issued(m).contains(k) implies issued_keys(vs@).contains(k) by {
                        let (i, v) = choose|i: int, v: int| 1 <= i < ps.len() && 1 <= v <= ps[i].1 && v % 2 == 1 && k == #[trigger] key_of(i, v);
                        assert(key_of(i, v) == k);
                    }
                    assert forall|k: u64| #[trigger] issued_keys(vs@).contains(k) implies slot_issued(m).contains(k) by {
                        let (i, v) = choose|i: int, v: int| 1 <= i < vs@.len() && 1 <= v <= vs@[i] && v % 2 == 1 && k == #[trigger] key_of(i, v);
                        assert(key_of(i, v) == k);
                    }
                }
                lemma_issued_keys(vs@);
            }
            Some((m, total))
        },
        None => {
            proof {
                assert(false);
            }
            None
        },
    }
}

/// The port identifiers whose 64-bit forms are `keys`.
pub open spec fn port_ids_of(keys: Seq<u64>) -> Seq<PortId> {
    keys.map_values(|k: u64| PortId::port_id_of(k))
}

/// The edge identifiers whose 64-bit forms are `keys`.
pub open spec fn edge_ids_of(keys: Seq<u64>) -> Seq<EdgeId> {
    keys.map_values(|k: u64| EdgeId::edge_id_of(k))
}

/// The rows list exactly the nodes of `g`, each once with its ports.
pub open spec fn node_rows<D, N, P, E>(rows: Seq<(u64, D, Vec<u64>)>, g: GraphView<N, P, E>) -> bool {
    &&& forall|n: NodeId| #[trigger] g.nodes.contains_key(n) <==> exists|i: int| 0 <= i < rows.len() && #[trigger] rows[i].0 == n@
    &&& forall|i: int|
        #![trigger rows[i]]
        0 <= i < rows.len() ==> g.nodes.contains_key(NodeId::node_id_of(rows[i].0)) && g.nodes[NodeId::node_id_of(
            rows[i].0,
        )].ports == port_ids_of(rows[i].2@)
}

/// The rows list exactly the ports of `g`, each once with its node and
/// its edges.
pub open spec fn port_rows<D, N, P, E>(rows: Seq<(u64, D, u64, Vec<u64>)>, g: GraphView<N, P, E>) -> bool {
    &&& forall|p: PortId| #[trigger] g.ports.contains_key(p) <==> exists|i: int| 0 <= i < rows.len() && #[trigger] rows[i].0 == p@
    &&& forall|i: int|
        #![trigger rows[i]]
        0 <= i < rows.len() ==> {
            let p = PortId::port_id_of(rows[i].0);
            &&& g.ports.contains_key(p)
            &&& g.ports[p].node == NodeId::node_id_of(rows[i].2)
            &&& g.ports[p].edges == edge_ids_of(rows[i].3@)
        }
}

/// The rows list exactly the edges of `g`, each once with its two ports.
pub open spec fn edge_rows<D, N, P, E>(rows: Seq<(u64, D, u64, u64)>, g: GraphView<N, P, E>) -> bool {
    &&& forall|e: EdgeId| #[trigger] g.edges.contains_key(e) <==> exists|i: int| 0 <= i < rows.len() && #[trigger] rows[i].0 == e@
    &&& forall|i: int|
        #![trigger rows[i]]
        0 <= i < rows.len() ==> {
            let e = EdgeId::edge_id_of(rows[i].0);
            &&& g.edges.contains_key(e)
            &&& g.edges[e].ends == (PortId::port_id_of(rows[i].2), PortId::port_id_of(rows[i].3))
        }
}

/// Every key of `keys` is the 64-bit form of an issued key.
pub open spec fn all_shaped(keys: Seq<u64>) -> bool {
    forall|j: int| 0 <= j < keys.len() ==> is_issued_shape(#[trigger] keys[j])
}

/// The node rows name distinct nodes, and every key in them, a node's or
/// a port's, is the form of an issued key.
pub open spec fn node_rows_shaped<D>(rows: Seq<(u64, D, Vec<u64>)>) -> bool {
    &&& forall|i: int, j: int| 0 <= i < j < rows.len() ==> #[trigger] rows[i].0 != #[trigger] rows[j].0
    &&& forall|i: int| 0 <= i < rows.len() ==> is_issued_shape(#[trigger] rows[i].0) && all_shaped(rows[i].2@)
}

/// The port rows name distinct ports, and every key in them, a port's, a
/// node's or an edge's, is the form of an issued key.
pub open spec fn port_rows_shaped<D>(rows: Seq<(u64, D, u64, Vec<u64>)>) -> bool {
    &&& forall|i: int, j: int| 0 <= i < j < rows.len() ==> #[trigger] rows[i].0 != #[trigger] rows[j].0
    &&& forall|i: int|
        0 <= i < rows.len() ==> is_issued_shape(#[trigger] rows[i].0) && is_issued_shape(rows[i].2) && all_shaped(
            rows[i].3@,
        )
}

/// The edge rows name distinct edges, and every key in them, an edge's or
/// a port's, is the form of an issued key.
pub open spec fn edge_rows_shaped<D>(rows: Seq<(u64, D, u64, u64)>) -> bool {
    &&& forall|i: int, j: int| 0 <= i < j < rows.len() ==> #[trigger] rows[i].0 != #[trigger] rows[j].0
    &&& forall|i: int|
        0 <= i < rows.len() ==> is_issued_shape(#[trigger] rows[i].0) && is_issued_shape(rows[i].2) && is_issued_shape(
            rows[i].3,
        )
}

/// `g` is the graph whose nodes, ports and edges the rows of `parts` list,
/// each with its data.
pub open spec fn rows_describe<N, P, E>(parts: GraphParts<N, P, E>, g: GraphView<N, P, E>) -> bool {
    &&& node_rows(parts.nodes@, g)
    &&& port_rows(parts.ports@, g)
    &&& edge_rows(parts.edges@, g)
    &&& forall|i: int|
        #![trigger parts.nodes@[i]]
        0 <= i < parts.nodes@.len() ==> g.nodes[NodeId::node_id_of(parts.nodes@[i].0)].data == parts.nodes@[i].1
    &&& forall|i: int|
        #![trigger parts.ports@[i]]
        0 <= i < parts.ports@.len() ==> g.ports[PortId::port_id_of(parts.ports@[i].0)].data == parts.ports@[i].1
    &&& forall|i: int|
        #![trigger parts.edges@[i]]
        0 <= i < parts.edges@.len() ==> g.edges[EdgeId::edge_id_of(parts.edges@[i].0)].data == parts.edges@[i].1
}

/// The rows of `key_rows` name exactly the keys live in the slots `vs`.
pub open spec fn rows_live<R>(key_rows: Seq<R>, key: spec_fn(R) -> u64, vs: Seq<u32>) -> bool {
    forall|k: u64| #[trigger] live_keys(vs).contains(k) <==> exists|i: int| 0 <= i < key_rows.len() && key(key_rows[i]) == k
}

/// Parts that `Graph::import` loads: each allocator's slots loadable, no
/// more rows of a kind than a graph holds, rows naming distinct elements by
/// issued keys, exactly the keys live in the slots, and some consistent
/// graph that the rows describe.
pub open spec fn loadable<N, P, E>(parts: GraphParts<N, P, E>) -> bool {
    &&& slots_loadable(parts.node_slots@)
    &&& slots_loadable(parts.port_slots@)
    &&& slots_loadable(parts.edge_slots@)
    &&& parts.nodes@.len() <= MAX_LIVE
    &&& parts.ports@.len() <= MAX_LIVE
    &&& parts.edges@.len() <= MAX_LIVE
    &&& node_rows_shaped(parts.nodes@)
    &&& port_rows_shaped(parts.ports@)
    &&& edge_rows_shaped(parts.edges@)
    &&& rows_live(parts.nodes@, |r: (u64, N, Vec<u64>)| r.0, parts.node_slots@)
    &&& rows_live(parts.ports@, |r: (u64, P, u64, Vec<u64>)| r.0, parts.port_slots@)
    &&& rows_live(parts.edges@, |r: (u64, E, u64, u64)| r.0, parts.edge_slots@)
    &&& exists|g: GraphView<N, P, E>| g.is_consistent() && rows_describe(parts, g)
}

/// The rows determine the nodes.
proof fn lemma_rows_same_nodes<N, P, E>(parts: GraphParts<N, P, E>, g: GraphView<N, P, E>, h: GraphView<N, P, E>)
    requires
        rows_describe(parts, g),
        rows_describe(parts, h),
    ensures
        h.nodes == g.nodes,
{
    assert forall|n: NodeId| #[trigger] h.nodes.contains_key(n) == g.nodes.contains_key(n) by {
        if h.nodes.contains_key(n) {
            let i = choose|i: int| 0 <= i < parts.nodes@.len() && #[trigger] parts.nodes@[i].0 == n@;
        }
    }
    assert forall|n: NodeId| #[trigger] h.nodes.contains_key(n) implies h.nodes[n] == g.nodes[n] by {
        let i = choose|i: int| 0 <= i < parts.nodes@.len() && #[trigger] parts.nodes@[i].0 == n@;
        assert(NodeId::node_id_of(n@) == n);
        assert(parts.nodes@[i].0 == n@);
    }
    assert(h.nodes =~= g.nodes);
}

/// The rows determine the ports.
proof fn lemma_rows_same_ports<N, P, E>(parts: GraphParts<N, P, E>, g: GraphView<N, P, E>, h: GraphView<N, P, E>)
    requires
        rows_describe(parts, g),
        rows_describe(parts, h),
    ensures
        h.ports == g.ports,
{
    assert forall|p: PortId| #[trigger] h.ports.contains_key(p) == g.ports.contains_key(p) by {
        if h.ports.contains_key(p) {
            let i = choose|i: int| 0 <= i < parts.ports@.len() && #[trigger] parts.ports@[i].0 == p@;
        }
    }
    assert forall|p: PortId| #[trigger] h.ports.contains_key(p) implies h.ports[p] == g.ports[p] by {
        let i = choose|i: int| 0 <= i < parts.ports@.len() && #[trigger] parts.ports@[i].0 == p@;
        assert(PortId::port_id_of(p@) == p);
        assert(parts.ports@[i].0 == p@);
    }
    assert(h.ports =~= g.ports);
}

/// The rows determine the edges.
proof fn lemma_rows_same_edges<N, P, E>(parts: GraphParts<N, P, E>, g: GraphView<N, P, E>, h: GraphView<N, P, E>)
    requires
        rows_describe(parts, g),
        rows_describe(parts, h),
    ensures
        h.edges == g.edges,
{
    assert forall|e: EdgeId| #[trigger] h.edges.contains_key(e) == g.edges.contains_key(e) by {
        if h.edges.contains_key(e) {
            let i = choose|i: int| 0 <= i < parts.edges@.len() && #[trigger] parts.edges@[i].0 == e@;
        }
    }
    assert forall|e: EdgeId| #[trigger] h.edges.contains_key(e) implies h.edges[e] == g.edges[e] by {
        let i = choose|i: int| 0 <= i < parts.edges@.len() && #[trigger] parts.edges@[i].0 == e@;
        assert(EdgeId::edge_id_of(e@) == e);
        assert(parts.edges@[i].0 == e@);
    }
    assert(h.edges =~= g.edges);
}

/// The rows of a set of parts describe at most one graph.
pub proof fn lemma_rows_determine<N, P, E>(parts: GraphParts<N, P, E>, g: GraphView<N, P, E>, h: GraphView<N, P, E>)
    requires
        rows_describe(parts, g),
        rows_describe(parts, h),
    ensures
        h == g,
{
    lemma_rows_same_nodes(parts, g, h);
    lemma_rows_same_ports(parts, g, h);
    lemma_rows_same_edges(parts, g, h);
    assert(h =~= g);
}

/// The port identifiers whose 64-bit forms are `keys`, when each is the
/// form of an issued key.
pub(crate) fn port_ids(keys: &Vec<u64>) -> (r: Option<Vec<PortId>>)
    ensures
        r matches Some(v) ==> v@ == port_ids_of(keys@),
        r is Some <==> all_shaped(keys@),
{
    let mut v: Vec<PortId> = Vec::new();
    let mut j: usize = 0;
    while j < keys.len()
        invariant
            j <= keys@.len(),
            forall|a: int| 0 <= a < j ==> is_issued_shape(#[trigger] keys@[a]),
            v@ == port_ids_of(keys@.take(j as int)),
        decreases keys@.len() - j,
    {
        let k = keys[j];
        if (k / 0x1_0000_0000) % 2 != 1 {
            proof {
                assert(!is_issued_shape(keys@[j as int]));
            }
            return None;
        }
        v.push(PortId::from_key(k));
        proof {
            assert(keys@.take(j as int + 1) =~= keys@.take(j as int).push(k));
            assert(v@ =~= port_ids_of(keys@.take(j as int + 1)));
        }
        j = j + 1;
    }
    proof {
        assert(keys@.take(keys@.len() as int) =~= keys@);
    }
    Some(v)
}

/// The edge identifiers whose 64-bit forms are `keys`, when each is the
/// form of an issued key.
pub(crate) fn edge_ids(keys: &Vec<u64>) -> (r: Option<Vec<EdgeId>>)
    ensures
        r matches Some(v) ==> v@ == edge_ids_of(keys@),
        r is Some <==> all_shaped(keys@),
{
    let mut v: Vec<EdgeId> = Vec::new();
    let mut j: usize = 0;
    while j < keys.len()
        invariant
            j <= keys@.len(),
            forall|a: int| 0 <= a < j ==> is_issued_shape(#[trigger] keys@[a]),
            v@ == edge_ids_of(keys@.take(j as int)),
        decreases keys@.len() - j,
    {
        let k = keys[j];
        if (k / 0x1_0000_0000) % 2 != 1 {
            proof {
                assert(!is_issued_shape(keys@[j as int]));
            }
            return None;
        }
        v.push(EdgeId::from_key(k));
        proof {
            assert(keys@.take(j as int + 1) =~= keys@.take(j as int).push(k));
            assert(v@ =~= edge_ids_of(keys@.take(j as int + 1)));
        }
        j = j + 1;
    }
    proof {
        assert(keys@.take(keys@.len() as int) =~= keys@);
    }
    Some(v)
}

/// Whether the keys of `table`, listed in `keys`, are exactly the keys live
/// in the allocator whose slot versions are `vs`.
pub(crate) fn keys_are_live<V>(table: &HashMap<u64, V>, keys: &Vec<u64>, vs: &Vec<u32>) -> (ok: bool)
    requires
        keys@.to_set() == table@.dom(),
        vs@.len() < 0xffff_ffff,
    ensures
        ok == (table@.dom() == live_keys(vs@)),
{
    let mut j: usize = 0;
    while j < keys.len()
        invariant
            keys@.to_set() == table@.dom(),
            vs@.len() < 0xffff_ffff,
            j <= keys@.len(),
            forall|a: int| 0 <= a < j ==> live_keys(vs@).contains(#[trigger] keys@[a]),
        decreases keys@.len() - j,
    {
        let k = keys[j];
        let idx = k % 0x1_0000_0000;
        let ver = k / 0x1_0000_0000;
        if idx < 1 || idx >= vs.len() as u64 || vs[idx as usize] as u64 != ver || ver % 2 != 1 {
            proof {
                assert(keys@.to_set().contains(keys@[j as int]));
                if live_keys(vs@).contains(k) {
                    let i = choose|i: int| 1 <= i < vs@.len() && #[trigger] vs@[i] % 2 == 1 && k == key_of(i, vs@[i] as int);
                    assert(idx == i && ver == vs@[i]) by (nonlinear_arith)
                        requires
                            k == vs@[i] * 0x1_0000_0000 + i,
                            0 <= i < 0x1_0000_0000,
                            idx == k % 0x1_0000_0000,
                            ver == k / 0x1_0000_0000,
                    ;
                }
                assert(!live_keys(vs@).contains(k));
                assert(table@.dom().contains(k));
            }
            return false;
        }
        proof {
            assert(k == key_of(idx as int, vs@[idx as int] as int)) by (nonlinear_arith)
                requires
                    idx == k % 0x1_0000_0000,
                    ver == k / 0x1_0000_0000,
                    vs@[idx as int] == ver,
            ;
            assert(vs@[idx as int] % 2 == 1);
            assert(live_keys(vs@).contains(k));
        }
        j = j + 1;
    }
    let mut i: usize = 1;
    while i < vs.len()
        invariant
            keys@.to_set() == table@.dom(),
            vs@.len() < 0xffff_ffff,
            1 <= i,
            forall|a: int| 0 <= a < keys@.len() ==> live_keys(vs@).contains(#[trigger] keys@[a]),
            forall|a: int| 1 <= a < i && #[trigger] vs@[a] % 2 == 1 ==> table@.contains_key(key_of(a, vs@[a] as int) as u64),
        decreases vs@.len() - i,
    {
        let v = vs[i];
        if v % 2 == 1 {
            let key: u64 = (v as u64) * 0x1_0000_0000 + (i as u64);
            if !table.contains_key(&key) {
                proof {
                    assert(key == key_of(i as int, v as int));
                    assert(live_keys(vs@).contains(key));
                }
                return false;
            }
            proof {
                assert(key == key_of(i as int, v as int));
            }
        }
        i = i + 1;
    }
    proof {
        assert(table@.dom() =~= live_keys(vs@)) by {
            assert forall|k: u64| #[trigger] table@.dom().contains(k) implies live_keys(vs@).contains(k) by {
                assert(keys@.to_set().contains(k));
                let a = choose|a: int| 0 <= a < keys@.len() && keys@[a] == k;
                assert(live_keys(vs@).contains(keys@[a]));
            }
            assert forall|k: u64| #[trigger] live_keys(vs@).contains(k) implies table@.dom().contains(k) by {
                let a = choose|a: int| 1 <= a < vs@.len() && #[trigger] vs@[a] % 2 == 1 && k == key_of(a, vs@[a] as int);
                assert(table@.contains_key(key_of(a, vs@[a] as int) as u64));
            }
        }
    }
    true
}

/// The versions of the slots of a key allocator, read through the slot
/// map's own serialization, one per slot, the sentinel's first.
pub(crate) fn slot_versions(s: &KeySlots) -> (r: Option<Vec<u32>>)
    ensures
        r is Some,
        r matches Some(vs) ==> {
            &&& vs@.len() >= 1
            &&& vs@.len() == slot_span(*s)
            &&& vs@[0] == 0
            &&& live_keys(vs@) == slot_keys(*s)
            &&& issued_keys(vs@) == slot_issued(*s)
        },
{
    let pairs = match slots_dump(s) {
        Some(p) => p,
        None => {
            proof {
                assert(false);
            }
            return None;
        },
    };
    let mut vs: Vec<u32> = Vec::new();
    let mut j: usize = 0;
    while j < pairs.len()
        invariant
            j <= pairs@.len(),
            vs@.len() == j,
            forall|a: int| 0 <= a < j ==> #[trigger] vs@[a] == pairs@[a].1,
        decreases pairs@.len() - j,
    {
        vs.push(pairs[j].1);
        j = j + 1;
    }
    proof {
        let ps = pairs@;
        assert(slots_describe(ps, slot_keys(*s), slot_issued(*s)));
        assert(live_keys(vs@) =~= slot_keys(*s)) by {
            assert forall|k: u64| #[trigger] slot_keys(*s).contains(k) implies live_keys(vs@).contains(k) by {
                let i = choose|i: int| 1 <= i < ps.len() && #[trigger] ps[i].0 is Some && k == key_of(i, ps[i].1 as int);
                assert(vs@[i] % 2 == 1);
            }
            assert forall|k: u64| #[trigger] live_keys(vs@).contains(k) implies slot_keys(*s).contains(k) by {
                let i = choose|i: int| 1 <= i < vs@.len() && #[trigger] vs@[i] % 2 == 1 && k == key_of(i, vs@[i] as int);
                assert(ps[i].0 is Some);
            }
        }
        assert(issued_keys(vs@) =~= slot_issued(*s)) by {
            assert forall|k: u64| #[trigger] slot_issued(*s).contains(k) implies issued_keys(vs@).contains(k) by {
                let (i, v) = choose|i: int, v: int| 1 <= i < ps.len() && 1 <= v <= ps[i].1 && v % 2 == 1 && k == #[trigger] key_of(i, v);
                assert(key_of(i, v) == k);
            }
            assert forall|k: u64| #[trigger] issued_keys(vs@).contains(k) implies slot_issued(*s).contains(k) by {
                let (i, v) = choose|i: int, v: int| 1 <= i < vs@.len() && 1 <= v <= vs@[i] && v % 2 == 1 && k == #[trigger] key_of(i, v);
                assert(key_of(i, v) == k);
            }
        }
    }
    Some(vs)
}

/// The 64-bit forms of the port identifiers `v`.
pub(crate) fn port_keys_of(v: &Vec<PortId>) -> (r: Vec<u64>)
    ensures
        port_ids_of(r@) == v@,
        all_shaped(r@),
{
    let mut r: Vec<u64> = Vec::new();
    let mut j: usize = 0;
    while j < v.len()
        invariant
            j <= v@.len(),
            r@.len() == j,
            port_ids_of(r@) == v@.take(j as int),
            all_shaped(r@),
        decreases v@.len() - j,
    {
        let ghost r0 = r@;
        r.push(v[j].key());
        proof {
            assert forall|a: int| 0 <= a < j + 1 implies #[trigger] port_ids_of(r@)[a] == v@.take(j as int + 1)[a] by {
                if a < j {
                    assert(r@[a] == r0[a]);
                    assert(port_ids_of(r0)[a] == v@.take(j as int)[a]);
                } else {
                    assert(r@[a] == v@[j as int]@);
                }
            }
            assert(port_ids_of(r@) =~= v@.take(j as int + 1));
        }
        j = j + 1;
    }
    proof {
        assert(v@.take(v@.len() as int) =~= v@);
    }
    r
}

/// The 64-bit forms of the edge identifiers `v`.
pub(crate) fn edge_keys_of(v: &Vec<EdgeId>) -> (r: Vec<u64>)
    ensures
        edge_ids_of(r@) == v@,
        all_shaped(r@),
{
    let mut r: Vec<u64> = Vec::new();
    let mut j: usize = 0;
    while j < v.len()
        invariant
            j <= v@.len(),
            r@.len() == j,
            edge_ids_of(r@) == v@.take(j as int),
            all_shaped(r@),
        decreases v@.len() - j,
    {
        let ghost r0 = r@;
        r.push(v[j].key());
        proof {
            assert forall|a: int| 0 <= a < j + 1 implies #[trigger] edge_ids_of(r@)[a] == v@.take(j as int + 1)[a] by {
                if a < j {
                    assert(r@[a] == r0[a]);
                    assert(edge_ids_of(r0)[a] == v@.take(j as int)[a]);
                } else {
                    assert(r@[a] == v@[j as int]@);
                }
            }
            assert(edge_ids_of(r@) =~= v@.take(j as int + 1));
        }
        j = j + 1;
    }
    proof {
        assert(v@.take(v@.len() as int) =~= v@);
    }
    r
}

/// Node `n` lists each of its ports once, each a live port that it owns.
pub open spec fn node_ok<N, P, E>(g: GraphView<N, P, E>, n: NodeId) -> bool {
    &&& g.nodes[n].ports.no_duplicates()
    &&& forall|i: int|
        0 <= i < g.nodes[n].ports.len() ==> g.ports.contains_key(#[trigger] g.nodes[n].ports[i])
            && g.ports[g.nodes[n].ports[i]].node == n
}

/// Port `p` belongs to a live node that lists it, and lists each of its
/// edges once, each a live edge with an end at `p`.
pub open spec fn port_ok<N, P, E>(g: GraphView<N, P, E>, p: PortId) -> bool {
    &&& g.nodes.contains_key(g.ports[p].node)
    &&& g.nodes[g.ports[p].node].ports.contains(p)
    &&& g.ports[p].edges.no_duplicates()
    &&& forall|i: int|
        0 <= i < g.ports[p].edges.len() ==> g.edges.contains_key(#[trigger] g.ports[p].edges[i]) && (
        g.edges[g.ports[p].edges[i]].ends.0 == p || g.edges[g.ports[p].edges[i]].ends.1 == p)
}

/// Edge `e` joins two distinct live ports, each of which lists it.
pub open spec fn edge_ok<N, P, E>(g: GraphView<N, P, E>, e: EdgeId) -> bool {
    let (a, b) = g.edges[e].ends;
    &&& a != b
    &&& g.ports.contains_key(a)
    &&& g.ports.contains_key(b)
    &&& g.ports[a].edges.contains(e)
    &&& g.ports[b].edges.contains(e)
}

/// The structural invariant holds exactly when every live node, port and
/// edge passes its own check.
pub proof fn lemma_checks_consistent<N, P, E>(g: GraphView<N, P, E>)
    ensures
        (g.ports_owned() && g.edges_attached()) == ((forall|n: NodeId| #[trigger] g.nodes.contains_key(n) ==> node_ok(g, n))
            && (forall|p: PortId| #[trigger] g.ports.contains_key(p) ==> port_ok(g, p))
            && (forall|e: EdgeId| #[trigger] g.edges.contains_key(e) ==> edge_ok(g, e))),
{
    if g.ports_owned() && g.edges_attached() {
        assert forall|n: NodeId| #[trigger] g.nodes.contains_key(n) implies node_ok(g, n) by {
            assert(g.nodes[n].ports.no_duplicates());
        }
        assert forall|p: PortId| #[trigger] g.ports.contains_key(p) implies port_ok(g, p) by {
            assert(g.ports[p].edges.no_duplicates());
        }
        assert forall|e: EdgeId| #[trigger] g.edges.contains_key(e) implies edge_ok(g, e) by {
            let _ = g.edges[e];
        }
    }
    if (forall|n: NodeId| #[trigger] g.nodes.contains_key(n) ==> node_ok(g, n))
        && (forall|p: PortId| #[trigger] g.ports.contains_key(p) ==> port_ok(g, p))
        && (forall|e: EdgeId| #[trigger] g.edges.contains_key(e) ==> edge_ok(g, e)) {
        assert forall|n: NodeId| #![trigger g.nodes[n]] g.nodes.contains_key(n) implies g.nodes[n].ports.no_duplicates() by {
            assert(node_ok(g, n));
        }
        assert forall|n: NodeId, i: int|
            #![trigger g.nodes[n].ports[i]]
            g.nodes.contains_key(n) && 0 <= i < g.nodes[n].ports.len() implies g.ports.contains_key(g.nodes[n].ports[i])
                && g.ports[g.nodes[n].ports[i]].node == n by {
            assert(node_ok(g, n));
        }
        assert forall|p: PortId| #![trigger g.ports[p]] g.ports.contains_key(p) implies g.nodes.contains_key(g.ports[p].node)
            && g.nodes[g.ports[p].node].ports.contains(p) && g.ports[p].edges.no_duplicates() by {
            assert(port_ok(g, p));
        }
        assert forall|p: PortId, i: int|
            #![trigger g.ports[p].edges[i]]
            g.ports.contains_key(p) && 0 <= i < g.ports[p].edges.len() implies g.edges.contains_key(g.ports[p].edges[i])
                && (g.edges[g.ports[p].edges[i]].ends.0 == p || g.edges[g.ports[p].edges[i]].ends.1 == p) by {
            assert(port_ok(g, p));
        }
        assert forall|e: EdgeId| #![trigger g.edges[e]] g.edges.contains_key(e) implies edge_ok(g, e) by {}
    }
}

/// Whether the port identifiers `v` are pairwise distinct.
pub(crate) fn ports_distinct(v: &Vec<PortId>) -> (b: bool)
    ensures
        b == v@.no_duplicates(),
{
    let mut seen: HashSet<u64> = HashSet::new();
    let mut j: usize = 0;
    while j < v.len()
        invariant
            j <= v@.len(),
            v@.take(j as int).no_duplicates(),
            forall|x: PortId| #[trigger] seen@.contains(x@) <==> v@.take(j as int).contains(x),
        decreases v@.len() - j,
    {
        let q = v[j];
        let k = q.key();
        if seen.contains(&k) {
            proof {
                assert(v@.take(j as int).contains(q));
                let a = choose|a: int| 0 <= a < j && v@.take(j as int)[a] == q;
                assert(v@[a] == v@[j as int]);
            }
            return false;
        }
        seen.insert(k);
        proof {
            assert(v@.take(j as int + 1) =~= v@.take(j as int).push(q));
            assert forall|x: PortId| #[trigger] seen@.contains(x@) <==> v@.take(j as int + 1).contains(x) by {
                crate::seqs::lemma_push_contains(v@.take(j as int), q, x);
            }
            crate::seqs::lemma_push_no_duplicates(v@.take(j as int), q);
        }
        j = j + 1;
    }
    proof {
        assert(v@.take(v@.len() as int) =~= v@);
    }
    true
}

/// Whether the edge identifiers `v` are pairwise distinct.
pub(crate) fn edges_distinct(v: &Vec<EdgeId>) -> (b: bool)
    ensures
        b == v@.no_duplicates(),
{
    let mut seen: HashSet<u64> = HashSet::new();
    let mut j: usize = 0;
    while j < v.len()
        invariant
            j <= v@.len(),
            v@.take(j as int).no_duplicates(),
            forall|x: EdgeId| #[trigger] seen@.contains(x@) <==> v@.take(j as int).contains(x),
        decreases v@.len() - j,
    {
        let q = v[j];
        let k = q.key();
        if seen.contains(&k) {
            proof {
                assert(v@.take(j as int).contains(q));
                let a = choose|a: int| 0 <= a < j && v@.take(j as int)[a] == q;
                assert(v@[a] == v@[j as int]);
            }
            return false;
        }
        seen.insert(k);
        proof {
            assert(v@.take(j as int + 1) =~= v@.take(j as int).push(q));
            assert forall|x: EdgeId| #[trigger] seen@.contains(x@) <==> v@.take(j as int + 1).contains(x) by {
                crate::seqs::lemma_push_contains(v@.take(j as int), q, x);
            }
            crate::seqs::lemma_push_no_duplicates(v@.take(j as int), q);
        }
        j = j + 1;
    }
    proof {
        assert(v@.take(v@.len() as int) =~= v@);
    }
    true
}

/// Whether `v` lists port `p`.
pub(crate) fn ports_contain(v: &Vec<PortId>, p: PortId) -> (b: bool)
    ensures
        b == v@.contains(p),
{
    let mut j: usize = 0;
    while j < v.len()
        invariant
            j <= v@.len(),
            forall|a: int| 0 <= a < j ==> v@[a] != p,
        decreases v@.len() - j,
    {
        if v[j] == p {
            return true;
        }
        j = j + 1;
    }
    false
}

/// Whether `v` lists edge `e`.
pub(crate) fn edges_contain(v: &Vec<EdgeId>, e: EdgeId) -> (b: bool)
    ensures
        b == v@.contains(e),
{
    let mut j: usize = 0;
    while j < v.len()
        invariant
            j <= v@.len(),
            forall|a: int| 0 <= a < j ==> v@[a] != e,
        decreases v@.len() - j,
    {
        if v[j] == e {
            return true;
        }
        j = j + 1;
    }
    false
}

} // verus!
