//! The rank law of the component graph: a graph with `V` nodes, `E` edges
//! and `C` connected components has `V <= E + C`, so `E - V + C` (the cycle
//! rank) is never negative and `V - C` (the cutset rank) never exceeds `E`.

use crate::id::{EdgeId, NodeId};
use crate::model::{lemma_neighbors_contains, lemma_reachable_symmetric, lemma_remove_edge_consistent, lemma_same_component, GraphView};
use crate::walks::{joined, lemma_closed_holds_joined, lemma_joined_map, lemma_joined_one_step, lemma_joined_refl, lemma_joined_trans};
use vstd::prelude::*;

verus! {

/// Edge `e` runs between a port of node `x` and a port of node `y`.
pub open spec fn edge_joins<N, P, E>(g: GraphView<N, P, E>, e: EdgeId, x: NodeId, y: NodeId) -> bool {
    let a = g.edges[e].ends.0;
    let b = g.edges[e].ends.1;
    (g.ports[a].node == x && g.ports[b].node == y) || (g.ports[b].node == x && g.ports[a].node == y)
}

/// Node `y` is a neighbor of node `x` exactly when a live edge joins them.
pub proof fn lemma_step_by_edge<N, P, E>(g: GraphView<N, P, E>, x: NodeId, y: NodeId)
    requires
        g.is_consistent(),
    ensures
        g.neighbors(x).contains(y) <==> exists|e: EdgeId| #[trigger] g.edges.contains_key(e) && edge_joins(g, e, x, y),
{
    if g.nodes.contains_key(x) {
        lemma_neighbors_contains(g, x, y);
        if g.neighbors(x).contains(y) {
            let (i, j) = choose|i: int, j: int|
                0 <= i < g.nodes[x].ports.len() && 0 <= j < g.ports[g.nodes[x].ports[i]].edges.len() && y
                    == g.ports[g.opposite(
                    #[trigger] g.ports[g.nodes[x].ports[i]].edges[j],
                    g.nodes[x].ports[i],
                )->0].node;
            let p = g.nodes[x].ports[i];
            let e = g.ports[p].edges[j];
            assert(g.ports.contains_key(p) && g.ports[p].node == x);
            assert(g.edges.contains_key(e));
            assert(edge_joins(g, e, x, y));
        }
        if exists|e: EdgeId| #[trigger] g.edges.contains_key(e) && edge_joins(g, e, x, y) {
            let e = choose|e: EdgeId| #[trigger] g.edges.contains_key(e) && edge_joins(g, e, x, y);
            let (a, b) = g.edges[e].ends;
            let p = if g.ports[a].node == x && g.ports[b].node == y { a } else { b };
            assert(g.ports.contains_key(a) && g.ports.contains_key(b));
            assert(g.nodes[g.ports[p].node].ports.contains(p));
            let i = choose|i: int| 0 <= i < g.nodes[x].ports.len() && g.nodes[x].ports[i] == p;
            assert(g.ports[p].edges.contains(e));
            let j = choose|j: int| 0 <= j < g.ports[p].edges.len() && g.ports[p].edges[j] == e;
            assert(g.ports[g.nodes[x].ports[i]].edges[j] == e);
        }
    } else {
        if exists|e: EdgeId| #[trigger] g.edges.contains_key(e) && edge_joins(g, e, x, y) {
            let e = choose|e: EdgeId| #[trigger] g.edges.contains_key(e) && edge_joins(g, e, x, y);
            let (a, b) = g.edges[e].ends;
            assert(g.ports.contains_key(a) && g.ports.contains_key(b));
            assert(g.nodes.contains_key(g.ports[a].node));
            assert(g.nodes.contains_key(g.ports[b].node));
        }
    }
}

/// Without edge `e0`, two nodes are neighbors exactly when another edge
/// joins them; with it, also when `e0` does.
proof fn lemma_step_without_edge<N, P, E>(g: GraphView<N, P, E>, e0: EdgeId, x: NodeId, y: NodeId)
    requires
        g.is_consistent(),
        g.edges.contains_key(e0),
    ensures
        g.neighbors(x).contains(y) <==> g.remove_edge(e0).neighbors(x).contains(y) || edge_joins(g, e0, x, y),
{
    let h = g.remove_edge(e0);
    lemma_remove_edge_consistent(g, e0);
    lemma_step_by_edge(g, x, y);
    lemma_step_by_edge(h, x, y);
    assert forall|e: EdgeId| #[trigger] h.edges.contains_key(e) implies (edge_joins(h, e, x, y) == edge_joins(g, e, x, y)) by {
        let (a, b) = g.edges[e].ends;
        assert(g.ports.contains_key(a) && g.ports.contains_key(b));
    }
    if g.neighbors(x).contains(y) && !edge_joins(g, e0, x, y) {
        let e = choose|e: EdgeId| #[trigger] g.edges.contains_key(e) && edge_joins(g, e, x, y);
        assert(h.edges.contains_key(e));
    }
    if h.neighbors(x).contains(y) {
        let e = choose|e: EdgeId| #[trigger] h.edges.contains_key(e) && edge_joins(h, e, x, y);
        assert(g.edges.contains_key(e));
    }
}

/// Removing edge `e0` splits the component of its ends into at most two:
/// every node that reached an end of `e0` still reaches one of them.
proof fn lemma_split_in_two<N, P, E>(g: GraphView<N, P, E>, e0: EdgeId, x: NodeId)
    requires
        g.is_consistent(),
        g.edges.contains_key(e0),
        g.reachable(g.ports[g.edges[e0].ends.0].node, x),
    ensures
        g.remove_edge(e0).reachable(g.ports[g.edges[e0].ends.0].node, x) || g.remove_edge(e0).reachable(
            g.ports[g.edges[e0].ends.1].node,
            x,
        ),
{
    let h = g.remove_edge(e0);
    let na = g.ports[g.edges[e0].ends.0].node;
    let nb = g.ports[g.edges[e0].ends.1].node;
    let s = Set::new(|z: NodeId| h.reachable(na, z) || h.reachable(nb, z));
    lemma_joined_refl(h.node_step(), na);
    assert forall|u: NodeId, v: NodeId| #[trigger] s.contains(u) && g.node_step()(u, v) implies #[trigger] s.contains(v) by {
        lemma_step_without_edge(g, e0, u, v);
        if h.neighbors(u).contains(v) {
            lemma_joined_one_step(h.node_step(), u, v);
            if h.reachable(na, u) {
                lemma_joined_trans(h.node_step(), na, u, v);
            } else {
                lemma_joined_trans(h.node_step(), nb, u, v);
            }
        } else {
            lemma_joined_refl(h.node_step(), v);
        }
    }
    lemma_closed_holds_joined(g.node_step(), s, na, x);
}

/// A node that does not reach the ends of edge `e0` reaches the same nodes
/// with `e0` and without it.
proof fn lemma_component_kept<N, P, E>(g: GraphView<N, P, E>, e0: EdgeId, x: NodeId)
    requires
        g.is_consistent(),
        g.edges.contains_key(e0),
        !g.reachable(g.ports[g.edges[e0].ends.0].node, x),
    ensures
        g.remove_edge(e0).component(x) == g.component(x),
{
    let h = g.remove_edge(e0);
    let na = g.ports[g.edges[e0].ends.0].node;
    let nb = g.ports[g.edges[e0].ends.1].node;
    lemma_remove_edge_consistent(g, e0);
    assert forall|y: NodeId| h.reachable(x, y) <==> g.reachable(x, y) by {
        if h.reachable(x, y) {
            assert forall|u: NodeId, v: NodeId| #[trigger] h.node_step()(u, v) implies g.node_step()(
                (|z: NodeId| z)(u),
                (|z: NodeId| z)(v),
            ) by {
                lemma_step_without_edge(g, e0, u, v);
            }
            lemma_joined_map(h.node_step(), g.node_step(), |z: NodeId| z, x, y);
        }
        if g.reachable(x, y) {
            let s = Set::new(|z: NodeId| h.reachable(x, z));
            lemma_joined_refl(h.node_step(), x);
            assert forall|u: NodeId, v: NodeId| #[trigger] s.contains(u) && g.node_step()(u, v) implies #[trigger] s.contains(
                v,
            ) by {
                lemma_step_without_edge(g, e0, u, v);
                if h.neighbors(u).contains(v) {
                    lemma_joined_one_step(h.node_step(), u, v);
                    lemma_joined_trans(h.node_step(), x, u, v);
                } else {
                    // `u` is an end of `e0`, and `x` reaches it: then an end
                    // of `e0` reaches `x`, which is ruled out.
                    assert forall|u2: NodeId, v2: NodeId| #[trigger] h.node_step()(u2, v2) implies g.node_step()(
                        (|z: NodeId| z)(u2),
                        (|z: NodeId| z)(v2),
                    ) by {
                        lemma_step_without_edge(g, e0, u2, v2);
                    }
                    lemma_joined_map(h.node_step(), g.node_step(), |z: NodeId| z, x, u);
                    lemma_reachable_symmetric(g, x, u);
                    lemma_step_by_edge(g, na, nb);
                    assert(edge_joins(g, e0, na, nb));
                    lemma_joined_one_step(g.node_step(), nb, na);
                    if u == na {
                        assert(g.reachable(na, x));
                    } else {
                        assert(u == nb);
                        lemma_joined_one_step(g.node_step(), na, nb);
                        lemma_joined_trans(g.node_step(), na, nb, x);
                    }
                }
            }
            lemma_closed_holds_joined(g.node_step(), s, x, y);
        }
    }
    assert(h.component(x) =~= g.component(x));
}

/// With no edge, each node is a component of its own.
proof fn lemma_no_edges_components<N, P, E>(g: GraphView<N, P, E>)
    requires
        g.is_consistent(),
        g.edges.dom() == Set::<EdgeId>::empty(),
    ensures
        g.components().len() == g.nodes.len(),
{
    let f = |n: NodeId| g.component(n);
    assert forall|x: NodeId, y: NodeId| g.reachable(x, y) implies x == y by {
        let s = set![x];
        assert forall|u: NodeId, v: NodeId| #[trigger] s.contains(u) && g.node_step()(u, v) implies #[trigger] s.contains(v) by {
            lemma_step_by_edge(g, u, v);
        }
        lemma_closed_holds_joined(g.node_step(), s, x, y);
    }
    assert forall|x: NodeId, y: NodeId| g.nodes.dom().contains(x) && g.nodes.dom().contains(y) && #[trigger] f(x) == #[trigger] f(y) implies x == y by {
        lemma_joined_refl(g.node_step(), y);
        assert(g.component(y).contains(y));
        assert(g.component(x).contains(y));
    }
    vstd::set_lib::lemma_map_size(g.nodes.dom(), g.components(), f);
}

/// The rank law: a consistent graph has no more nodes than edges and
/// components together, `V <= E + C`.
pub proof fn law_rank_nonnegative<N, P, E>(g: GraphView<N, P, E>)
    requires
        g.is_consistent(),
    ensures
        g.nodes.len() <= g.edges.len() + g.components().len(),
    decreases g.edges.len(),
{
    if g.edges.dom() =~= Set::<EdgeId>::empty() {
        lemma_no_edges_components(g);
    } else {
        let e0 = g.edges.dom().choose();
        let h = g.remove_edge(e0);
        lemma_remove_edge_consistent(g, e0);
        assert(h.edges.dom() =~= g.edges.dom().remove(e0));
        assert(h.nodes == g.nodes);
        law_rank_nonnegative(h);
        let na = g.ports[g.edges[e0].ends.0].node;
        let nb = g.ports[g.edges[e0].ends.1].node;
        let (a, b) = g.edges[e0].ends;
        assert(g.ports.contains_key(a) && g.ports.contains_key(b));
        assert(g.nodes.contains_key(na) && g.nodes.contains_key(nb));
        let c = g.components();
        let ch = h.components();
        let k = g.component(na);
        let rest = ch.remove(h.component(na)).remove(h.component(nb));
        g.nodes.dom().lemma_map_finite(|n: NodeId| g.component(n));
        h.nodes.dom().lemma_map_finite(|n: NodeId| h.component(n));
        assert(c.contains(k));
        assert(rest.subset_of(c.remove(k))) by {
            assert forall|q: Set<NodeId>| #[trigger] rest.contains(q) implies c.remove(k).contains(q) by {
                let x = choose|x: NodeId| h.nodes.dom().contains(x) && h.component(x) == q;
                if g.reachable(na, x) {
                    lemma_split_in_two(g, e0, x);
                    if h.reachable(na, x) {
                        lemma_same_component(h, na, x);
                    } else {
                        lemma_same_component(h, nb, x);
                    }
                }
                lemma_component_kept(g, e0, x);
                lemma_joined_refl(g.node_step(), x);
                assert(g.component(x).contains(x));
            }
        }
        vstd::set_lib::lemma_len_subset(rest, c.remove(k));
    }
}

/// The two ranks split the edges: the cutset rank `V - C` (the edges of a
/// spanning forest) and the cycle rank `E + C - V` (the independent loops)
/// are both nonnegative and together make up `E`.
pub proof fn law_ranks_split_edges<N, P, E>(g: GraphView<N, P, E>)
    requires
        g.is_consistent(),
    ensures
        g.components().len() <= g.nodes.len(),
        g.nodes.len() <= g.edges.len() + g.components().len(),
        (g.nodes.len() - g.components().len()) + (g.edges.len() + g.components().len() - g.nodes.len())
            == g.edges.len(),
{
    g.nodes.dom().lemma_map_finite(|n: NodeId| g.component(n));
    vstd::set_lib::lemma_map_size_bound(g.nodes.dom(), g.components(), |n: NodeId| g.component(n));
    law_rank_nonnegative(g);
}

} // verus!
