//! Laws that relate several operations: what one operation undoes of
//! another, what removal takes with it, what stamping leaves alone, that
//! the two searches agree, and how classifying, extending and closing a
//! cycle fit together.

use crate::graph::Graph;
use crate::id::{EdgeId, NodeId, PortId};
use crate::model::GraphView;
use crate::cycle::{checked_link, classified, classify_defined, dest_nodes, extension_refusal, Link, LinkError, Step};
use crate::library::stamp_ports;
use crate::seqs::{lemma_filter_all, lemma_filter_ext, other_edge};
use crate::traversal::search_found;
use crate::persist::{
    all_shaped, edge_ids_of, edge_rows_shaped, issued_keys, lemma_rows_determine, live_keys, loadable, node_rows_shaped,
    port_ids_of, port_rows_shaped, rows_describe, rows_live, GraphParts,
};
use crate::slots::is_issued_shape;
use vstd::prelude::*;

verus! {

/// An edge of a consistent graph is listed only by live edges' ports: a
/// port never lists an edge that is not live.
proof fn lemma_dead_edge_unlisted<N, P, E>(g: GraphView<N, P, E>, e: EdgeId, q: PortId)
    requires
        g.is_consistent(),
        !g.edges.contains_key(e),
        g.ports.contains_key(q),
    ensures
        !g.ports[q].edges.contains(e),
{
    if g.ports[q].edges.contains(e) {
        let i = choose|i: int| 0 <= i < g.ports[q].edges.len() && g.ports[q].edges[i] == e;
        assert(g.edges.contains_key(g.ports[q].edges[i]));
    }
}

/// Disconnecting the edge that a connection has just made gives back the
/// graph as it was before the connection.
pub proof fn law_disconnect_undoes_connect<N, P, E>(
    g: GraphView<N, P, E>,
    e: EdgeId,
    a: PortId,
    b: PortId,
    data: E,
)
    requires
        g.is_consistent(),
        !g.edges.contains_key(e),
        a != b,
        g.ports.contains_key(a),
        g.ports.contains_key(b),
    ensures
        g.insert_edge(e, a, b, data).remove_edge(e) == g,
{
    let c = g.insert_edge(e, a, b, data);
    let h = c.remove_edge(e);
    assert forall|q: PortId| #[trigger] h.ports.contains_key(q) implies h.ports[q] == g.ports[q] by {
        let es = g.ports[q].edges;
        lemma_dead_edge_unlisted(g, e, q);
        assert forall|i: int| 0 <= i < es.len() implies other_edge(e)(#[trigger] es[i]) by {
            assert(es.contains(es[i]));
        }
        lemma_filter_all(es, other_edge(e));
        if q == a || q == b {
            es.lemma_filter_push(e, other_edge(e));
        }
    }
    assert(h.ports =~= g.ports);
    assert(h.edges =~= g.edges);
    assert(h.nodes =~= g.nodes);
}

/// Removing the port that has just been added to a live node gives back
/// the graph as it was before.
pub proof fn law_remove_port_undoes_add_port<N, P, E>(g: GraphView<N, P, E>, n: NodeId, p: PortId, data: P)
    requires
        g.is_consistent(),
        g.nodes.contains_key(n),
        !g.ports.contains_key(p),
    ensures
        g.insert_port(n, p, data).remove_port(p) == g,
{
    let c = g.insert_port(n, p, data);
    let h = c.remove_port(p);
    let s = set![p];
    let fp = |q: PortId| !s.contains(q);
    let fe = |x: EdgeId| !c.touches(x, s);
    assert forall|m: NodeId| #[trigger] h.nodes.contains_key(m) implies h.nodes[m] == g.nodes[m] by {
        let ps = g.nodes[m].ports;
        assert forall|i: int| 0 <= i < ps.len() implies fp(#[trigger] ps[i]) by {
            assert(g.ports.contains_key(g.nodes[m].ports[i]));
        }
        lemma_filter_all(ps, fp);
        if m == n {
            ps.lemma_filter_push(p, fp);
        }
    }
    assert forall|q: PortId| #[trigger] h.ports.contains_key(q) implies h.ports[q] == g.ports[q] by {
        let es = g.ports[q].edges;
        assert forall|i: int| 0 <= i < es.len() implies fe(#[trigger] es[i]) by {
            assert(g.edges.contains_key(g.ports[q].edges[i]));
        }
        lemma_filter_all(es, fe);
    }
    assert(h.nodes =~= g.nodes);
    assert(h.ports =~= g.ports);
    assert(h.edges =~= g.edges);
}

/// Removing the node that has just been added gives back the graph as it
/// was before.
pub proof fn law_remove_node_undoes_add_node<N, P, E>(g: GraphView<N, P, E>, n: NodeId, data: N)
    requires
        g.is_consistent(),
        !g.nodes.contains_key(n),
    ensures
        g.insert_node(n, data).remove_node(n) == g,
{
    let c = g.insert_node(n, data);
    let h = c.remove_node(n);
    let s = c.nodes[n].ports.to_set();
    assert(s =~= Set::<PortId>::empty());
    let fp = |q: PortId| !s.contains(q);
    let fe = |x: EdgeId| !c.touches(x, s);
    assert forall|m: NodeId| #[trigger] h.nodes.contains_key(m) implies h.nodes[m] == g.nodes[m] by {
        let ps = g.nodes[m].ports;
        lemma_filter_all(ps, fp);
    }
    assert forall|q: PortId| #[trigger] h.ports.contains_key(q) implies h.ports[q] == g.ports[q] by {
        let es = g.ports[q].edges;
        lemma_filter_all(es, fe);
    }
    assert(h.nodes =~= g.nodes);
    assert(h.ports =~= g.ports);
    assert(h.edges =~= g.edges);
}

/// Removing a node takes with it exactly the node, its ports and every
/// edge at one of them; every other node, port and edge stays, with its
/// data.
pub proof fn law_remove_node_cascades<N, P, E>(g: GraphView<N, P, E>, n: NodeId)
    requires
        g.is_consistent(),
        g.nodes.contains_key(n),
    ensures
        g.remove_node(n).nodes.dom() == g.nodes.dom().remove(n),
        forall|p: PortId|
            #[trigger] g.remove_node(n).ports.contains_key(p) <==> g.ports.contains_key(p) && g.ports[p].node != n,
        forall|e: EdgeId|
            #[trigger] g.remove_node(n).edges.contains_key(e) <==> g.edges.contains_key(e)
                && g.ports[g.edges[e].ends.0].node != n && g.ports[g.edges[e].ends.1].node != n,
        forall|m: NodeId| #[trigger] g.remove_node(n).nodes.contains_key(m) ==> g.remove_node(n).nodes[m].data == g.nodes[m].data,
        forall|p: PortId| #[trigger] g.remove_node(n).ports.contains_key(p) ==> g.remove_node(n).ports[p].data == g.ports[p].data,
        forall|e: EdgeId| #[trigger] g.remove_node(n).edges.contains_key(e) ==> g.remove_node(n).edges[e] == g.edges[e],
{
    let h = g.remove_node(n);
    let s = g.nodes[n].ports.to_set();
    assert(h.nodes.dom() =~= g.nodes.dom().remove(n));
    assert forall|p: PortId| g.ports.contains_key(p) implies (s.contains(p) <==> g.ports[p].node == n) by {
        if s.contains(p) {
            let i = choose|i: int| 0 <= i < g.nodes[n].ports.len() && g.nodes[n].ports[i] == p;
            assert(g.ports[g.nodes[n].ports[i]].node == n);
        }
        if g.ports[p].node == n {
            assert(g.nodes[g.ports[p].node].ports.contains(p));
        }
    }
    assert forall|e: EdgeId| #[trigger] h.edges.contains_key(e) <==> g.edges.contains_key(e)
        && g.ports[g.edges[e].ends.0].node != n && g.ports[g.edges[e].ends.1].node != n by {
        if g.edges.contains_key(e) {
            let (a, b) = g.edges[e].ends;
            assert(g.ports.contains_key(a) && g.ports.contains_key(b));
        }
    }
}

/// Adding a port to a live node puts it after the node's other ports, owned
/// by that node and carrying its data; nothing else changes.
pub proof fn law_add_port_appends<N, P, E>(g: GraphView<N, P, E>, n: NodeId, p: PortId, data: P)
    requires
        g.is_consistent(),
        g.nodes.contains_key(n),
        !g.ports.contains_key(p),
    ensures
        g.insert_port(n, p, data).nodes[n].ports == g.nodes[n].ports.push(p),
        g.insert_port(n, p, data).port_node(p) == Some(n),
        g.insert_port(n, p, data).ports[p].data == data,
        g.insert_port(n, p, data).ports[p].edges == Seq::<EdgeId>::empty(),
        g.insert_port(n, p, data).nodes.dom() == g.nodes.dom(),
        g.insert_port(n, p, data).ports.dom() == g.ports.dom().insert(p),
        g.insert_port(n, p, data).edges == g.edges,
{
    assert(g.insert_port(n, p, data).nodes.dom() =~= g.nodes.dom());
    assert(g.insert_port(n, p, data).ports.dom() =~= g.ports.dom().insert(p));
}

/// Across an edge and back: the port opposite the port opposite `p` is `p`.
pub proof fn law_opposite_involutive<N, P, E>(g: GraphView<N, P, E>, e: EdgeId, p: PortId)
    requires
        g.is_consistent(),
        g.opposite(e, p) is Some,
    ensures
        g.opposite(e, g.opposite(e, p)->0) == Some(p),
{
    assert(g.edges[e].ends.0 != g.edges[e].ends.1);
}

/// Ports may be joined more than once: connecting `a` to `b` adds the new
/// edge after the edges already between them, and keeps those.
pub proof fn law_parallel_edges<N, P, E>(g: GraphView<N, P, E>, e: EdgeId, a: PortId, b: PortId, data: E)
    requires
        g.is_consistent(),
        !g.edges.contains_key(e),
        a != b,
        g.ports.contains_key(a),
        g.ports.contains_key(b),
    ensures
        g.insert_edge(e, a, b, data).edges_between(a, b) == g.edges_between(a, b).push(e),
        g.insert_edge(e, a, b, data).edges_between(b, a) == g.edges_between(b, a).push(e),
{
    let h = g.insert_edge(e, a, b, data);
    let fa_h = |x: EdgeId| h.opposite(x, a) == Some(b);
    let fa_g = |x: EdgeId| g.opposite(x, a) == Some(b);
    let fb_h = |x: EdgeId| h.opposite(x, b) == Some(a);
    let fb_g = |x: EdgeId| g.opposite(x, b) == Some(a);
    let ea = g.ports[a].edges;
    let eb = g.ports[b].edges;
    assert forall|i: int| 0 <= i < ea.len() implies fa_h(#[trigger] ea[i]) == fa_g(ea[i]) by {
        assert(g.edges.contains_key(g.ports[a].edges[i]));
    }
    assert forall|i: int| 0 <= i < eb.len() implies fb_h(#[trigger] eb[i]) == fb_g(eb[i]) by {
        assert(g.edges.contains_key(g.ports[b].edges[i]));
    }
    lemma_filter_ext(ea, fa_h, fa_g);
    lemma_filter_ext(eb, fb_h, fb_g);
    ea.lemma_filter_push(e, fa_h);
    eb.lemma_filter_push(e, fb_h);
}

/// Stamping ports onto a fresh node gives it exactly those ports, in
/// order, each owned by it, carrying the matching datum and no edge.
pub proof fn law_stamped_ports_in_order<N, P, E>(
    g: GraphView<N, P, E>,
    n: NodeId,
    d: N,
    ids: Seq<PortId>,
    data: Seq<P>,
)
    requires
        g.is_consistent(),
        !g.nodes.contains_key(n),
        ids.len() == data.len(),
        ids.no_duplicates(),
        forall|i: int| 0 <= i < ids.len() ==> !g.ports.contains_key(#[trigger] ids[i]),
    ensures
        stamp_ports(g.insert_node(n, d), n, ids, data).nodes[n].ports == ids,
        stamp_ports(g.insert_node(n, d), n, ids, data).nodes[n].data == d,
        forall|i: int|
            0 <= i < ids.len() ==> {
                &&& #[trigger] stamp_ports(g.insert_node(n, d), n, ids, data).ports[ids[i]].data == data[i]
                &&& stamp_ports(g.insert_node(n, d), n, ids, data).ports[ids[i]].node == n
                &&& stamp_ports(g.insert_node(n, d), n, ids, data).ports[ids[i]].edges == Seq::<EdgeId>::empty()
            },
    decreases ids.len(),
{
    let h = stamp_ports(g.insert_node(n, d), n, ids, data);
    if ids.len() > 0 {
        let k = ids.len() - 1;
        let ids0 = ids.drop_last();
        let data0 = data.take(k);
        assert(ids0.no_duplicates());
        law_stamped_ports_in_order(g, n, d, ids0, data0);
        let h0 = stamp_ports(g.insert_node(n, d), n, ids0, data0);
        assert(h == h0.insert_port(n, ids[k], data[k]));
        assert(h.nodes[n].ports =~= ids);
        assert forall|i: int| 0 <= i < ids.len() implies {
            &&& #[trigger] h.ports[ids[i]].data == data[i]
            &&& h.ports[ids[i]].node == n
            &&& h.ports[ids[i]].edges == Seq::<EdgeId>::empty()
        } by {
            if i < k {
                assert(ids0[i] == ids[i]);
                assert(data0[i] == data[i]);
                assert(ids[i] != ids[k]);
            }
        }
    } else {
        assert(ids =~= Seq::<PortId>::empty());
    }
}

/// Instances are independent: stamping a new instance leaves every node
/// and port already in the graph as it was, and adds no edge.
pub proof fn law_stamping_leaves_others<N, P, E>(
    g: GraphView<N, P, E>,
    n: NodeId,
    d: N,
    ids: Seq<PortId>,
    data: Seq<P>,
)
    requires
        g.is_consistent(),
        !g.nodes.contains_key(n),
        forall|i: int| 0 <= i < ids.len() ==> !g.ports.contains_key(#[trigger] ids[i]),
    ensures
        forall|m: NodeId| #[trigger] g.nodes.contains_key(m) ==> stamp_ports(g.insert_node(n, d), n, ids, data).nodes[m] == g.nodes[m],
        forall|q: PortId| #[trigger] g.ports.contains_key(q) ==> stamp_ports(g.insert_node(n, d), n, ids, data).ports[q] == g.ports[q],
        forall|m: NodeId| #[trigger] g.nodes.contains_key(m) ==> stamp_ports(g.insert_node(n, d), n, ids, data).nodes.contains_key(m),
        forall|q: PortId| #[trigger] g.ports.contains_key(q) ==> stamp_ports(g.insert_node(n, d), n, ids, data).ports.contains_key(q),
        stamp_ports(g.insert_node(n, d), n, ids, data).edges == g.edges,
    decreases ids.len(),
{
    if ids.len() > 0 {
        let k = ids.len() - 1;
        law_stamping_leaves_others(g, n, d, ids.drop_last(), data.take(k));
        assert forall|q: PortId| #[trigger] g.ports.contains_key(q) implies q != ids[k] by {}
    }
}

/// Each link of `links` leaves the node that the link before it reaches.
pub open spec fn is_chain<N, P, E>(g: GraphView<N, P, E>, links: Seq<Link>) -> bool {
    forall|i: int| 0 < i < links.len() ==> g.port_node(#[trigger] links[i].source) == g.port_node(links[i - 1].dest)
}

/// The link that a classified step would add.
pub open spec fn step_link(s: Step) -> Link {
    match s {
        Step::Extends(l) => l,
        Step::Closes(l) => l,
        Step::RevisitsInterior { link, at } => link,
    }
}

/// A cycle built by extension alone stays a chain: an accepted link leaves
/// the node that the cycle's open end reaches.
pub proof fn law_extension_keeps_chain<N, P, E>(g: GraphView<N, P, E>, links: Seq<Link>, link: Link)
    requires
        is_chain(g, links),
        links.len() > 0 ==> g.ports.contains_key(links.last().dest),
        extension_refusal(g, links, link) is None,
    ensures
        is_chain(g, links.push(link)),
{
    let s = links.push(link);
    assert forall|i: int| 0 < i < s.len() implies g.port_node(#[trigger] s[i].source) == g.port_node(s[i - 1].dest) by {
        if i < links.len() {
            assert(s[i] == links[i] && s[i - 1] == links[i - 1]);
        }
    }
}

/// The link of a classified step is one that extension accepts, and it
/// leaves through the edge that was classified.
pub proof fn law_classified_link_extends<N, P, E>(g: GraphView<N, P, E>, links: Seq<Link>, edge: EdgeId)
    requires
        classify_defined(g, links, edge),
        classified(g, links, edge) is Ok,
    ensures
        extension_refusal(g, links, step_link(classified(g, links, edge)->Ok_0)) is None,
        step_link(classified(g, links, edge)->Ok_0).edge == edge,
{
}

/// A closing step closes: with its link appended, the cycle ends at the
/// node where it starts.
pub proof fn law_closing_step_closes<N, P, E>(g: GraphView<N, P, E>, links: Seq<Link>, edge: EdgeId)
    requires
        classify_defined(g, links, edge),
        classified(g, links, edge) matches Ok(Step::Closes(l)),
    ensures
        g.port_node(links.push(step_link(classified(g, links, edge)->Ok_0))[0].source) == g.port_node(
            step_link(classified(g, links, edge)->Ok_0).dest,
        ),
{
    let l = step_link(classified(g, links, edge)->Ok_0);
    assert(links.push(l)[0] == links[0]);
}

/// Breadth- and depth-first search find the same nodes: for a predicate
/// that answers each datum one way only, any two results of a search from
/// the same node hold the same nodes.
pub proof fn law_searches_agree<N, P, E, F: Fn(&N) -> bool>(
    g: GraphView<N, P, E>,
    start: NodeId,
    predicate: F,
    a: Seq<NodeId>,
    b: Seq<NodeId>,
)
    requires
        search_found(g, start, predicate, a),
        search_found(g, start, predicate, b),
        forall|d: &N, r1: bool, r2: bool|
            predicate.ensures((d,), r1) && predicate.ensures((d,), r2) ==> r1 == r2,
    ensures
        a.to_set() == b.to_set(),
{
    assert forall|x: NodeId| a.contains(x) implies b.contains(x) by {
        let i = choose|i: int| 0 <= i < a.len() && a[i] == x;
        assert(g.reachable(start, a[i]));
    }
    assert forall|x: NodeId| b.contains(x) implies a.contains(x) by {
        let i = choose|i: int| 0 <= i < b.len() && b[i] == x;
        assert(g.reachable(start, b[i]));
    }
    assert(a.to_set() =~= b.to_set());
}

/// An identifier, once issued, is never issued again: while the issued
/// identifiers only grow (every operation keeps or extends them), an
/// identifier that a later addition returns from outside them differs from
/// every node, port and edge that was live earlier.
pub proof fn law_ids_never_reissued<N, P, E>(
    g0: Graph<N, P, E>,
    g1: Graph<N, P, E>,
    n: NodeId,
    p: PortId,
    e: EdgeId,
    fresh_n: NodeId,
    fresh_p: PortId,
    fresh_e: EdgeId,
)
    requires
        g0.wf(),
        forall|x: NodeId| #[trigger] g0.issued_nodes().contains(x) ==> g1.issued_nodes().contains(x),
        forall|x: PortId| #[trigger] g0.issued_ports().contains(x) ==> g1.issued_ports().contains(x),
        forall|x: EdgeId| #[trigger] g0.issued_edges().contains(x) ==> g1.issued_edges().contains(x),
        !g1.issued_nodes().contains(fresh_n),
        !g1.issued_ports().contains(fresh_p),
        !g1.issued_edges().contains(fresh_e),
    ensures
        g0@.nodes.contains_key(n) ==> fresh_n != n,
        g0@.ports.contains_key(p) ==> fresh_p != p,
        g0@.edges.contains_key(e) ==> fresh_e != e,
{
    g0.lemma_live_issued();
}

/// The edges of port `p` whose other end belongs to node `m`.
pub open spec fn edges_toward<N, P, E>(g: GraphView<N, P, E>, p: PortId, m: NodeId) -> Seq<EdgeId> {
    g.ports[p].edges.filter(|e: EdgeId| g.ports[g.opposite(e, p)->0].node == m)
}

/// How many edge ends at the ports `ps` lead to node `m`: for each port,
/// its edges whose other end belongs to `m`.
pub open spec fn ends_toward<N, P, E>(g: GraphView<N, P, E>, ps: Seq<PortId>, m: NodeId) -> nat
    decreases ps.len(),
{
    if ps.len() == 0 {
        0
    } else {
        ends_toward(g, ps.drop_last(), m) + edges_toward(g, ps.last(), m).len()
    }
}

/// The entries equal to `m`.
pub open spec fn is_node(m: NodeId) -> spec_fn(NodeId) -> bool {
    |x: NodeId| x == m
}

/// Mapping then keeping the entries equal to `m` keeps as many entries as
/// keeping those that map to `m`.
proof fn lemma_map_filter_len(s: Seq<EdgeId>, f: spec_fn(EdgeId) -> NodeId, m: NodeId)
    ensures
        s.map_values(f).filter(is_node(m)).len() == s.filter(|e: EdgeId| f(e) == m).len(),
    decreases s.len(),
{
    reveal(Seq::filter);
    if s.len() > 0 {
        let t = s.drop_last();
        lemma_map_filter_len(t, f, m);
        assert(s =~= t.push(s.last()));
        assert(s.map_values(f) =~= t.map_values(f).push(f(s.last())));
        t.map_values(f).lemma_filter_len_push(is_node(m), f(s.last()));
        t.lemma_filter_len_push(|e: EdgeId| f(e) == m, s.last());
    }
}

/// The neighbor lists of the first ports of a node, flattened, hold `m`
/// once per edge end at those ports that leads to `m`.
proof fn lemma_neighbor_prefix<N, P, E>(g: GraphView<N, P, E>, ps: Seq<PortId>, m: NodeId)
    ensures
        ps.map_values(|p: PortId| g.port_neighbors(p)).flatten().filter(is_node(m)).len() == ends_toward(g, ps, m),
    decreases ps.len(),
{
    let lists = ps.map_values(|p: PortId| g.port_neighbors(p));
    lists.lemma_flatten_and_flatten_alt_are_equivalent();
    if ps.len() > 0 {
        let t = ps.drop_last();
        let p = ps.last();
        lemma_neighbor_prefix(g, t, m);
        let tl = t.map_values(|p: PortId| g.port_neighbors(p));
        tl.lemma_flatten_and_flatten_alt_are_equivalent();
        assert(lists.drop_last() =~= tl);
        assert(lists.last() == g.port_neighbors(p));
        assert(lists.flatten_alt() == tl.flatten_alt() + g.port_neighbors(p));
        Seq::filter_distributes_over_add(tl.flatten(), g.port_neighbors(p), is_node(m));
        let far = |e: EdgeId| g.ports[g.opposite(e, p)->0].node;
        lemma_map_filter_len(g.ports[p].edges, far, m);
        assert((|e: EdgeId| far(e) == m) =~= (|e: EdgeId| g.ports[g.opposite(e, p)->0].node == m));
    } else {
        assert(lists.flatten_alt() =~= Seq::<NodeId>::empty());
        assert(Seq::<NodeId>::empty().filter(is_node(m)) =~= Seq::<NodeId>::empty()) by {
            reveal(Seq::filter);
        }
    }
}

/// A node appears among the neighbors of `n` once per edge end that joins
/// it to `n`: for every port of `n`, each of its edges whose other end
/// belongs to `m` (a node joined by two wires appears twice). A node that
/// is not live has no neighbors.
pub proof fn law_neighbor_multiplicity<N, P, E>(g: GraphView<N, P, E>, n: NodeId, m: NodeId)
    requires
        g.is_consistent(),
    ensures
        g.nodes.contains_key(n) ==> g.neighbors(n).filter(is_node(m)).len() == ends_toward(g, g.nodes[n].ports, m),
        !g.nodes.contains_key(n) ==> g.neighbors(n).len() == 0,
{
    if g.nodes.contains_key(n) {
        lemma_neighbor_prefix(g, g.nodes[n].ports, m);
        assert(g.node_neighbor_lists(n) =~= g.nodes[n].ports.map_values(|p: PortId| g.port_neighbors(p)));
    }
}

/// Parts to load agree with parts that were saved when they hold the same
/// slot versions and rows, each datum the one that the saved row refers to.
pub open spec fn parts_agree<N, P, E>(p: GraphParts<N, P, E>, q: GraphParts<&N, &P, &E>) -> bool {
    &&& p.node_slots@ == q.node_slots@
    &&& p.port_slots@ == q.port_slots@
    &&& p.edge_slots@ == q.edge_slots@
    &&& p.nodes@.len() == q.nodes@.len()
    &&& p.ports@.len() == q.ports@.len()
    &&& p.edges@.len() == q.edges@.len()
    &&& forall|i: int|
        #![trigger p.nodes@[i]]
        0 <= i < p.nodes@.len() ==> p.nodes@[i].0 == q.nodes@[i].0 && p.nodes@[i].1 == *q.nodes@[i].1 && p.nodes@[i].2@
            == q.nodes@[i].2@
    &&& forall|i: int|
        #![trigger p.ports@[i]]
        0 <= i < p.ports@.len() ==> p.ports@[i].0 == q.ports@[i].0 && p.ports@[i].1 == *q.ports@[i].1 && p.ports@[i].2
            == q.ports@[i].2 && p.ports@[i].3@ == q.ports@[i].3@
    &&& forall|i: int|
        #![trigger p.edges@[i]]
        0 <= i < p.edges@.len() ==> p.edges@[i].0 == q.edges@[i].0 && p.edges@[i].1 == *q.edges@[i].1 && p.edges@[i].2
            == q.edges@[i].2 && p.edges@[i].3 == q.edges@[i].3
}

/// Saved parts load: taken as owned parts `p`, what `export` writes of a
/// well-formed graph `g` is loadable, so `import` returns a graph for it,
/// and its rows describe `g`, with `g`'s issued identifiers.
pub proof fn law_saved_parts_load<N, P, E>(g: Graph<N, P, E>, p: GraphParts<N, P, E>, q: GraphParts<&N, &P, &E>)
    requires
        g.wf(),
        g.saved_as(q),
        parts_agree(p, q),
    ensures
        loadable(p),
        rows_describe(p, g@),
        forall|n: NodeId| #[trigger] g.issued_nodes().contains(n) <==> issued_keys(p.node_slots@).contains(n@),
        forall|x: PortId| #[trigger] g.issued_ports().contains(x) <==> issued_keys(p.port_slots@).contains(x@),
        forall|e: EdgeId| #[trigger] g.issued_edges().contains(e) <==> issued_keys(p.edge_slots@).contains(e@),
{
    assert(node_rows_shaped(p.nodes@)) by {
        assert forall|i: int, j: int| 0 <= i < j < p.nodes@.len() implies #[trigger] p.nodes@[i].0 != #[trigger] p.nodes@[j].0 by {
            assert(q.nodes@[i].0 != q.nodes@[j].0);
        }
        assert forall|i: int| 0 <= i < p.nodes@.len() implies is_issued_shape(#[trigger] p.nodes@[i].0) && all_shaped(p.nodes@[i].2@) by {
            assert(is_issued_shape(q.nodes@[i].0) && all_shaped(q.nodes@[i].2@));
        }
    }
    assert(port_rows_shaped(p.ports@)) by {
        assert forall|i: int, j: int| 0 <= i < j < p.ports@.len() implies #[trigger] p.ports@[i].0 != #[trigger] p.ports@[j].0 by {
            assert(q.ports@[i].0 != q.ports@[j].0);
        }
        assert forall|i: int| 0 <= i < p.ports@.len() implies is_issued_shape(#[trigger] p.ports@[i].0) && is_issued_shape(p.ports@[i].2)
            && all_shaped(p.ports@[i].3@) by {
            assert(is_issued_shape(q.ports@[i].0) && is_issued_shape(q.ports@[i].2) && all_shaped(q.ports@[i].3@));
        }
    }
    assert(edge_rows_shaped(p.edges@)) by {
        assert forall|i: int, j: int| 0 <= i < j < p.edges@.len() implies #[trigger] p.edges@[i].0 != #[trigger] p.edges@[j].0 by {
            assert(q.edges@[i].0 != q.edges@[j].0);
        }
        assert forall|i: int| 0 <= i < p.edges@.len() implies is_issued_shape(#[trigger] p.edges@[i].0) && is_issued_shape(p.edges@[i].2)
            && is_issued_shape(p.edges@[i].3) by {
            assert(is_issued_shape(q.edges@[i].0) && is_issued_shape(q.edges@[i].2) && is_issued_shape(q.edges@[i].3));
        }
    }
    assert(rows_live(p.nodes@, |r: (u64, N, Vec<u64>)| r.0, p.node_slots@)) by {
        assert forall|k: u64| #[trigger] live_keys(p.node_slots@).contains(k) <==> exists|i: int|
            0 <= i < p.nodes@.len() && (|r: (u64, N, Vec<u64>)| r.0)(p.nodes@[i]) == k by {
            if live_keys(p.node_slots@).contains(k) {
                let i = choose|i: int| 0 <= i < q.nodes@.len() && (|r: (u64, &N, Vec<u64>)| r.0)(q.nodes@[i]) == k;
                assert((|r: (u64, N, Vec<u64>)| r.0)(p.nodes@[i]) == k);
            }
            if exists|i: int| 0 <= i < p.nodes@.len() && (|r: (u64, N, Vec<u64>)| r.0)(p.nodes@[i]) == k {
                let i = choose|i: int| 0 <= i < p.nodes@.len() && (|r: (u64, N, Vec<u64>)| r.0)(p.nodes@[i]) == k;
                assert((|r: (u64, &N, Vec<u64>)| r.0)(q.nodes@[i]) == k);
            }
        }
    }
    assert(rows_live(p.ports@, |r: (u64, P, u64, Vec<u64>)| r.0, p.port_slots@)) by {
        assert forall|k: u64| #[trigger] live_keys(p.port_slots@).contains(k) <==> exists|i: int|
            0 <= i < p.ports@.len() && (|r: (u64, P, u64, Vec<u64>)| r.0)(p.ports@[i]) == k by {
            if live_keys(p.port_slots@).contains(k) {
                let i = choose|i: int| 0 <= i < q.ports@.len() && (|r: (u64, &P, u64, Vec<u64>)| r.0)(q.ports@[i]) == k;
                assert((|r: (u64, P, u64, Vec<u64>)| r.0)(p.ports@[i]) == k);
            }
            if exists|i: int| 0 <= i < p.ports@.len() && (|r: (u64, P, u64, Vec<u64>)| r.0)(p.ports@[i]) == k {
                let i = choose|i: int| 0 <= i < p.ports@.len() && (|r: (u64, P, u64, Vec<u64>)| r.0)(p.ports@[i]) == k;
                assert((|r: (u64, &P, u64, Vec<u64>)| r.0)(q.ports@[i]) == k);
            }
        }
    }
    assert(rows_live(p.edges@, |r: (u64, E, u64, u64)| r.0, p.edge_slots@)) by {
        assert forall|k: u64| #[trigger] live_keys(p.edge_slots@).contains(k) <==> exists|i: int|
            0 <= i < p.edges@.len() && (|r: (u64, E, u64, u64)| r.0)(p.edges@[i]) == k by {
            if live_keys(p.edge_slots@).contains(k) {
                let i = choose|i: int| 0 <= i < q.edges@.len() && (|r: (u64, &E, u64, u64)| r.0)(q.edges@[i]) == k;
                assert((|r: (u64, E, u64, u64)| r.0)(p.edges@[i]) == k);
            }
            if exists|i: int| 0 <= i < p.edges@.len() && (|r: (u64, E, u64, u64)| r.0)(p.edges@[i]) == k {
                let i = choose|i: int| 0 <= i < p.edges@.len() && (|r: (u64, E, u64, u64)| r.0)(p.edges@[i]) == k;
                assert((|r: (u64, &E, u64, u64)| r.0)(q.edges@[i]) == k);
            }
        }
    }
    lemma_saved_rows_describe(g, p, q);
}

/// The rows of parts that agree with `g` saved describe `g`.
proof fn lemma_saved_rows_describe<N, P, E>(g: Graph<N, P, E>, p: GraphParts<N, P, E>, q: GraphParts<&N, &P, &E>)
    requires
        g.saved_as(q),
        parts_agree(p, q),
    ensures
        rows_describe(p, g@),
{
    broadcast use crate::id::group_id_lemmas;

    let v = g@;
    assert forall|n: NodeId| #[trigger] v.nodes.contains_key(n) <==> exists|i: int| 0 <= i < p.nodes@.len() && #[trigger] p.nodes@[i].0 == n@ by {
        if v.nodes.contains_key(n) {
            let i = choose|i: int| 0 <= i < q.nodes@.len() && #[trigger] q.nodes@[i].0 == n@;
            assert(p.nodes@[i].0 == n@);
        }
        if exists|i: int| 0 <= i < p.nodes@.len() && #[trigger] p.nodes@[i].0 == n@ {
            let i = choose|i: int| 0 <= i < p.nodes@.len() && #[trigger] p.nodes@[i].0 == n@;
            assert(q.nodes@[i].0 == n@);
        }
    }
    assert forall|i: int| #![trigger p.nodes@[i]] 0 <= i < p.nodes@.len() implies v.nodes.contains_key(NodeId::node_id_of(p.nodes@[i].0))
        && v.nodes[NodeId::node_id_of(p.nodes@[i].0)].ports == port_ids_of(p.nodes@[i].2@) && v.nodes[NodeId::node_id_of(
        p.nodes@[i].0,
    )].data == p.nodes@[i].1 by {
        assert(q.nodes@[i].0 == p.nodes@[i].0);
    }
    assert forall|x: PortId| #[trigger] v.ports.contains_key(x) <==> exists|i: int| 0 <= i < p.ports@.len() && #[trigger] p.ports@[i].0 == x@ by {
        if v.ports.contains_key(x) {
            let i = choose|i: int| 0 <= i < q.ports@.len() && #[trigger] q.ports@[i].0 == x@;
            assert(p.ports@[i].0 == x@);
        }
        if exists|i: int| 0 <= i < p.ports@.len() && #[trigger] p.ports@[i].0 == x@ {
            let i = choose|i: int| 0 <= i < p.ports@.len() && #[trigger] p.ports@[i].0 == x@;
            assert(q.ports@[i].0 == x@);
        }
    }
    assert forall|i: int| #![trigger p.ports@[i]] 0 <= i < p.ports@.len() implies {
        let x = PortId::port_id_of(p.ports@[i].0);
        &&& v.ports.contains_key(x)
        &&& v.ports[x].node == NodeId::node_id_of(p.ports@[i].2)
        &&& v.ports[x].edges == edge_ids_of(p.ports@[i].3@)
        &&& v.ports[x].data == p.ports@[i].1
    } by {
        assert(q.ports@[i].0 == p.ports@[i].0);
    }
    assert forall|e: EdgeId| #[trigger] v.edges.contains_key(e) <==> exists|i: int| 0 <= i < p.edges@.len() && #[trigger] p.edges@[i].0 == e@ by {
        if v.edges.contains_key(e) {
            let i = choose|i: int| 0 <= i < q.edges@.len() && #[trigger] q.edges@[i].0 == e@;
            assert(p.edges@[i].0 == e@);
        }
        if exists|i: int| 0 <= i < p.edges@.len() && #[trigger] p.edges@[i].0 == e@ {
            let i = choose|i: int| 0 <= i < p.edges@.len() && #[trigger] p.edges@[i].0 == e@;
            assert(q.edges@[i].0 == e@);
        }
    }
    assert forall|i: int| #![trigger p.edges@[i]] 0 <= i < p.edges@.len() implies {
        let e = EdgeId::edge_id_of(p.edges@[i].0);
        &&& v.edges.contains_key(e)
        &&& v.edges[e].ends == (PortId::port_id_of(p.edges@[i].2), PortId::port_id_of(p.edges@[i].3))
        &&& v.edges[e].data == p.edges@[i].1
    } by {
        assert(q.edges@[i].0 == p.edges@[i].0);
    }
}

/// Saving and loading gives the graph back: a graph `h` that `import`
/// returns for parts agreeing with what `export` wrote of `g` has the same
/// nodes, ports and edges as `g`, under the same identifiers, with the same
/// data and links, and counts the same identifiers as issued, so it never
/// issues one that `g` had issued.
pub proof fn law_import_undoes_export<N, P, E>(
    g: Graph<N, P, E>,
    h: Graph<N, P, E>,
    p: GraphParts<N, P, E>,
    q: GraphParts<&N, &P, &E>,
)
    requires
        g.wf(),
        g.saved_as(q),
        parts_agree(p, q),
        rows_describe(p, h@),
        forall|n: NodeId| #[trigger] h.issued_nodes().contains(n) <==> issued_keys(p.node_slots@).contains(n@),
        forall|x: PortId| #[trigger] h.issued_ports().contains(x) <==> issued_keys(p.port_slots@).contains(x@),
        forall|e: EdgeId| #[trigger] h.issued_edges().contains(e) <==> issued_keys(p.edge_slots@).contains(e@),
    ensures
        h@ == g@,
        h.issued_nodes() == g.issued_nodes(),
        h.issued_ports() == g.issued_ports(),
        h.issued_edges() == g.issued_edges(),
{
    law_saved_parts_load(g, p, q);
    lemma_rows_determine(p, g@, h@);
    assert(h.issued_nodes() =~= g.issued_nodes());
    assert(h.issued_ports() =~= g.issued_ports());
    assert(h.issued_edges() =~= g.issued_edges());
}

/// How many edge ends the ports `ps` hold together.
pub open spec fn edge_total<N, P, E>(g: GraphView<N, P, E>, ps: Seq<PortId>) -> nat
    decreases ps.len(),
{
    if ps.len() == 0 {
        0
    } else {
        edge_total(g, ps.drop_last()) + g.ports[ps.last()].edges.len()
    }
}

/// The edge lists of the ports `ps`, in order.
pub open spec fn edge_lists_of<N, P, E>(g: GraphView<N, P, E>, ps: Seq<PortId>) -> Seq<Seq<EdgeId>> {
    ps.map_values(|p: PortId| g.ports[p].edges)
}

/// The edge lists of the ports `ps`, flattened, hold an edge exactly when
/// one of the ports lists it, and are as long as those lists together.
proof fn lemma_port_edges_flat<N, P, E>(g: GraphView<N, P, E>, ps: Seq<PortId>)
    ensures
        edge_lists_of(g, ps).flatten().len() == edge_total(g, ps),
        forall|e: EdgeId|
            #[trigger] edge_lists_of(g, ps).flatten().contains(e) <==> exists|i: int|
                0 <= i < ps.len() && g.ports[ps[i]].edges.contains(e),
    decreases ps.len(),
{
    let lists = edge_lists_of(g, ps);
    lists.lemma_flatten_and_flatten_alt_are_equivalent();
    if ps.len() == 0 {
        assert(lists.flatten_alt() =~= Seq::<EdgeId>::empty());
    } else {
        let t = ps.drop_last();
        let tl = edge_lists_of(g, t);
        lemma_port_edges_flat(g, t);
        tl.lemma_flatten_and_flatten_alt_are_equivalent();
        assert(lists.drop_last() =~= tl);
        let last = g.ports[ps.last()].edges;
        assert(lists.last() == last);
        assert(lists.flatten() == tl.flatten() + last);
        assert forall|e: EdgeId| #[trigger] lists.flatten().contains(e) <==> exists|i: int|
            0 <= i < ps.len() && g.ports[ps[i]].edges.contains(e) by {
            let f = tl.flatten();
            if lists.flatten().contains(e) {
                let k = choose|k: int| 0 <= k < lists.flatten().len() && lists.flatten()[k] == e;
                if k < f.len() {
                    assert(f[k] == e);
                    assert(f.contains(e));
                    let i = choose|i: int| 0 <= i < t.len() && g.ports[t[i]].edges.contains(e);
                    assert(ps[i] == t[i]);
                } else {
                    assert(last[k - f.len()] == e);
                    assert(g.ports[ps[ps.len() - 1]].edges.contains(e));
                }
            }
            if exists|i: int| 0 <= i < ps.len() && g.ports[ps[i]].edges.contains(e) {
                let i = choose|i: int| 0 <= i < ps.len() && g.ports[ps[i]].edges.contains(e);
                if i < ps.len() - 1 {
                    assert(t[i] == ps[i]);
                    assert(f.contains(e));
                    let k = choose|k: int| 0 <= k < f.len() && f[k] == e;
                    assert(lists.flatten()[k] == e);
                } else {
                    let k = choose|k: int| 0 <= k < last.len() && last[k] == e;
                    assert(lists.flatten()[f.len() + k] == e);
                }
            }
        }
    }
}

/// A node's edges are the edges of its ports: an edge is among the edges
/// of a live node exactly when one of the node's ports lists it, and the
/// node has as many edge entries as its ports have together. A node that
/// is not live has none.
pub proof fn law_node_edges_are_its_ports_edges<N, P, E>(g: GraphView<N, P, E>, n: NodeId)
    ensures
        g.nodes.contains_key(n) ==> g.node_edges(n).len() == edge_total(g, g.nodes[n].ports),
        g.nodes.contains_key(n) ==> forall|e: EdgeId|
            #[trigger] g.node_edges(n).contains(e) <==> exists|i: int|
                0 <= i < g.nodes[n].ports.len() && g.ports[g.nodes[n].ports[i]].edges.contains(e),
        !g.nodes.contains_key(n) ==> g.node_edges(n).len() == 0,
{
    if g.nodes.contains_key(n) {
        lemma_port_edges_flat(g, g.nodes[n].ports);
        assert(g.node_edge_lists(n) =~= edge_lists_of(g, g.nodes[n].ports));
    }
}

/// A checked link runs across a live edge whose two ends are exactly its
/// two ports, which lie on different live nodes.
pub proof fn law_checked_link_joins_its_ports<N, P, E>(g: GraphView<N, P, E>, source: PortId, edge: EdgeId, dest: PortId)
    requires
        g.is_consistent(),
    ensures
        checked_link(g, source, edge, dest) matches Ok(l) ==> {
            &&& l == (Link { source, edge, dest })
            &&& g.edges.contains_key(edge)
            &&& (g.edges[edge].ends == (source, dest) || g.edges[edge].ends == (dest, source))
            &&& g.ports.contains_key(source) && g.ports.contains_key(dest)
            &&& g.ports[source].node != g.ports[dest].node
        },
        g.ports.contains_key(source) && g.ports.contains_key(dest) && g.ports[source].edges.contains(edge)
            && g.ports[dest].edges.contains(edge) && g.ports[source].node != g.ports[dest].node
            ==> checked_link(g, source, edge, dest) == Ok::<Link, LinkError>(Link { source, edge, dest }),
{
    if checked_link(g, source, edge, dest) is Ok {
        let i = choose|i: int| 0 <= i < g.ports[source].edges.len() && g.ports[source].edges[i] == edge;
        let j = choose|j: int| 0 <= j < g.ports[dest].edges.len() && g.ports[dest].edges[j] == edge;
        assert(g.edges.contains_key(g.ports[source].edges[i]));
        assert(g.edges.contains_key(g.ports[dest].edges[j]));
    }
}

/// Classifying an edge against an open cycle tells revisits from
/// extensions by every link of the cycle: a link that extends the cycle
/// reaches a node that no link of the cycle reaches and where the cycle
/// does not start, and a revisit names the node its link reaches, one that
/// some link of the cycle reaches, other than the start.
pub proof fn law_classify_checks_every_link<N, P, E>(g: GraphView<N, P, E>, links: Seq<Link>, edge: EdgeId)
    ensures
        classified(g, links, edge) matches Ok(Step::Extends(l)) ==> {
            &&& g.edges.contains_key(edge) && l.edge == edge
            &&& (g.edges[edge].ends == (l.source, l.dest) || g.edges[edge].ends == (l.dest, l.source))
            &&& g.ports[l.source].node == g.ports[links.last().dest].node
            &&& forall|k: int| 0 <= k < links.len() ==> g.ports[#[trigger] links[k].dest].node != g.ports[l.dest].node
            &&& g.ports[links[0].source].node != g.ports[l.dest].node
        },
        classified(g, links, edge) matches Ok(Step::RevisitsInterior { link, at }) ==> {
            &&& g.edges.contains_key(edge) && link.edge == edge
            &&& (g.edges[edge].ends == (link.source, link.dest) || g.edges[edge].ends == (link.dest, link.source))
            &&& at == g.ports[link.dest].node
            &&& g.ports[link.source].node == g.ports[links.last().dest].node
            &&& exists|k: int| 0 <= k < links.len() && g.ports[#[trigger] links[k].dest].node == at
            &&& at != g.ports[links[0].source].node
        },
{
}

/// A closed cycle's node list has one node per link: the node that the
/// link at the same place reaches.
pub proof fn law_node_list_one_per_link<N, P, E>(g: GraphView<N, P, E>, links: Seq<Link>)
    ensures
        dest_nodes(g, links).len() == links.len(),
        forall|i: int| 0 <= i < links.len() ==> #[trigger] dest_nodes(g, links)[i] == g.ports[links[i].dest].node,
{
}

} // verus!
