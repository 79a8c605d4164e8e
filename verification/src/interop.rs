//! Projection onto `petgraph`: one petgraph node per component, one
//! petgraph edge per wire, weighted by this graph's identifiers so that
//! answers map straight back.

use crate::graph::Graph;
use crate::id::{EdgeId, NodeId};
use crate::slots::slot_index;
use petgraph::graph::Graph as PetGraph;
use petgraph::graph::UnGraph;
use std::collections::HashMap;
use vstd::prelude::*;

verus! {

broadcast use {vstd::std_specs::hash::group_hash_axioms, crate::id::group_id_lemmas};

#[verifier::external_type_specification]
#[verifier::external_body]
#[verifier::reject_recursive_types(N)]
#[verifier::reject_recursive_types(E)]
#[verifier::reject_recursive_types(Ty)]
#[verifier::reject_recursive_types(Ix)]
pub struct ExPetgraphGraph<N, E, Ty, Ix>(PetGraph<N, E, Ty, Ix>);

#[verifier::external_type_specification]
#[verifier::external_body]
pub struct ExPetgraphUndirected(petgraph::Undirected);

/// The node weights of a petgraph graph, in index order.
pub uninterp spec fn petgraph_nodes(g: UnGraph<NodeId, EdgeId>) -> Seq<NodeId>;

/// The edges of a petgraph graph, in index order: the indices of their two
/// end nodes and their weight.
pub uninterp spec fn petgraph_edges(g: UnGraph<NodeId, EdgeId>) -> Seq<(usize, usize, EdgeId)>;

/// `petgraph::graph::Graph::new_undirected`: a graph with no node and no
/// edge.
#[verifier::external_body]
fn petgraph_new() -> (pg: UnGraph<NodeId, EdgeId>)
    ensures
        petgraph_nodes(pg) == Seq::<NodeId>::empty(),
        petgraph_edges(pg) == Seq::<(usize, usize, EdgeId)>::empty(),
{
    UnGraph::new_undirected()
}

/// `petgraph::graph::Graph::add_node`: appends a node weighted `w` and
/// returns its index, the number of nodes before it; the edges stay. It
/// panics once the `u32` index space is full, which `requires` rules out.
#[verifier::external_body]
fn petgraph_add_node(pg: &mut UnGraph<NodeId, EdgeId>, w: NodeId) -> (i: usize)
    requires
        petgraph_nodes(*old(pg)).len() < 0xffff_ffff,
    ensures
        i == petgraph_nodes(*old(pg)).len(),
        petgraph_nodes(*final(pg)) == petgraph_nodes(*old(pg)).push(w),
        petgraph_edges(*final(pg)) == petgraph_edges(*old(pg)),
{
    pg.add_node(w).index()
}

/// `petgraph::graph::Graph::add_edge`: appends an edge weighted `w` between
/// the nodes at indices `a` and `b`; the node weights stay. It panics on an
/// index out of range or once the `u32` index space is full, which
/// `requires` rules out.
#[verifier::external_body]
fn petgraph_add_edge(pg: &mut UnGraph<NodeId, EdgeId>, a: usize, b: usize, w: EdgeId)
    requires
        a < petgraph_nodes(*old(pg)).len(),
        b < petgraph_nodes(*old(pg)).len(),
        petgraph_edges(*old(pg)).len() < 0xffff_ffff,
    ensures
        petgraph_nodes(*final(pg)) == petgraph_nodes(*old(pg)),
        petgraph_edges(*final(pg)) == petgraph_edges(*old(pg)).push((a, b, w)),
{
    pg.add_edge(petgraph::graph::NodeIndex::new(a), petgraph::graph::NodeIndex::new(b), w);
}

/// The position of each node of `ids` in `ids`, keyed by the node's 64-bit
/// form.
fn node_positions(ids: &Vec<NodeId>) -> (index: HashMap<u64, usize>)
    requires
        ids@.no_duplicates(),
    ensures
        forall|i: int| 0 <= i < ids@.len() ==> #[trigger] index@.contains_key(ids@[i]@) && index@[ids@[i]@] == i,
{
    let mut index: HashMap<u64, usize> = HashMap::new();
    let mut i: usize = 0;
    while i < ids.len()
        invariant
            ids@.no_duplicates(),
            i <= ids@.len(),
            forall|a: int| 0 <= a < i ==> #[trigger] index@.contains_key(ids@[a]@) && index@[ids@[a]@] == a,
        decreases ids@.len() - i,
    {
        let p = ids[i];
        proof {
            assert forall|a: int| 0 <= a < i implies ids@[a]@ != p@ by {
                assert(ids@[a] != ids@[i as int]);
            }
        }
        index.insert(p.key(), i);
        i = i + 1;
    }
    index
}

impl<N, P, E> Graph<N, P, E> {
    /// Collapses ports away: one petgraph node per component, in slot
    /// order, weighted by its identifier; one petgraph edge per wire, in
    /// slot order, weighted by its identifier and joining the nodes that own
    /// its two ports. An internal jumper becomes a self-loop.
    pub fn to_petgraph(&self) -> (pg: UnGraph<NodeId, EdgeId>)
        requires
            self.wf(),
        ensures
            petgraph_nodes(pg).len() == self@.nodes.len(),
            forall|i: int| 0 <= i < petgraph_nodes(pg).len() ==> self@.nodes.contains_key(#[trigger] petgraph_nodes(pg)[i]),
            forall|x: NodeId| #[trigger] self@.nodes.contains_key(x) ==> petgraph_nodes(pg).contains(x),
            forall|i: int, j: int|
                0 <= i < j < petgraph_nodes(pg).len() ==> slot_index(#[trigger] petgraph_nodes(pg)[i]@) < slot_index(
                    #[trigger] petgraph_nodes(pg)[j]@,
                ),
            petgraph_edges(pg).len() == self@.edges.len(),
            forall|k: int|
                0 <= k < petgraph_edges(pg).len() ==> {
                    let (a, b, e) = #[trigger] petgraph_edges(pg)[k];
                    &&& self@.edges.contains_key(e)
                    &&& a < petgraph_nodes(pg).len()
                    &&& b < petgraph_nodes(pg).len()
                    &&& petgraph_nodes(pg)[a as int] == self@.ports[self@.edges[e].ends.0].node
                    &&& petgraph_nodes(pg)[b as int] == self@.ports[self@.edges[e].ends.1].node
                },
            forall|x: EdgeId| #[trigger]
                self@.edges.contains_key(x) ==> exists|k: int| 0 <= k < petgraph_edges(pg).len() && petgraph_edges(pg)[k].2 == x,
            forall|k: int, l: int|
                0 <= k < l < petgraph_edges(pg).len() ==> slot_index(#[trigger] petgraph_edges(pg)[k].2@) < slot_index(
                    #[trigger] petgraph_edges(pg)[l].2@,
                ),
    {
        let ghost g = self@;
        proof {
            self.lemma_finite();
        }
        let listed = self.nodes();
        let mut pg = petgraph_new();
        let mut ids: Vec<NodeId> = Vec::new();
        let mut i: usize = 0;
        while i < listed.len()
            invariant
                self.wf(),
                g == self@,
                i <= listed@.len(),
                listed@.len() == g.nodes.len(),
                g.nodes.len() < 0xffff_ffff,
                ids@.len() == i,
                forall|a: int| 0 <= a < i ==> ids@[a] == (#[trigger] listed@[a]).0,
                petgraph_nodes(pg) == ids@,
                petgraph_edges(pg) == Seq::<(usize, usize, EdgeId)>::empty(),
            decreases listed@.len() - i,
        {
            let id = listed[i].0;
            petgraph_add_node(&mut pg, id);
            ids.push(id);
            i = i + 1;
        }
        proof {
            assert forall|a: int, b: int| 0 <= a < b < ids@.len() implies ids@[a] != ids@[b] by {
                assert(ids@[a] == listed@[a].0 && ids@[b] == listed@[b].0);
                assert(slot_index(listed@[a].0@) < slot_index(listed@[b].0@));
            }
            assert forall|x: NodeId| #[trigger] g.nodes.contains_key(x) implies ids@.contains(x) by {
                let a = choose|a: int| 0 <= a < listed@.len() && listed@[a].0 == x;
                assert(ids@[a] == listed@[a].0);
            }
        }
        let index = node_positions(&ids);
        let listed_edges = self.all_edges();
        let mut j: usize = 0;
        while j < listed_edges.len()
            invariant
                self.wf(),
                g == self@,
                j <= listed_edges@.len(),
                listed_edges@.len() == g.edges.len(),
                g.edges.len() < 0xffff_ffff,
                petgraph_nodes(pg) == ids@,
                ids@.len() == g.nodes.len(),
                forall|a: int| 0 <= a < ids@.len() ==> #[trigger] index@.contains_key(ids@[a]@) && index@[ids@[a]@] == a,
                forall|x: NodeId| #[trigger] g.nodes.contains_key(x) ==> ids@.contains(x),
                forall|a: int| 0 <= a < listed_edges@.len() ==> g.edges.contains_key(#[trigger] listed_edges@[a].0),
                petgraph_edges(pg).len() == j,
                forall|k: int|
                    0 <= k < j ==> {
                        let (a, b, e) = #[trigger] petgraph_edges(pg)[k];
                        &&& e == listed_edges@[k].0
                        &&& a < ids@.len()
                        &&& b < ids@.len()
                        &&& ids@[a as int] == g.ports[g.edges[e].ends.0].node
                        &&& ids@[b as int] == g.ports[g.edges[e].ends.1].node
                    },
            decreases listed_edges@.len() - j,
        {
            let e = listed_edges[j].0;
            proof {
                assert(g.edges.contains_key(listed_edges@[j as int].0));
            }
            let (na, nb) = self.edge_nodes(e).unwrap();
            proof {
                let (pa, pb) = g.edges[e].ends;
                assert(g.ports.contains_key(pa) && g.ports.contains_key(pb));
                assert(g.nodes.contains_key(g.ports[pa].node));
                assert(g.nodes.contains_key(g.ports[pb].node));
                assert(ids@.contains(na) && ids@.contains(nb));
            }
            let ghost ka = choose|a: int| 0 <= a < ids@.len() && ids@[a] == na;
            let ghost kb = choose|a: int| 0 <= a < ids@.len() && ids@[a] == nb;
            proof {
                assert(index@.contains_key(ids@[ka]@));
                assert(index@.contains_key(ids@[kb]@));
            }
            let ia = *index.get(&na.key()).unwrap();
            let ib = *index.get(&nb.key()).unwrap();
            let ghost before = petgraph_edges(pg);
            petgraph_add_edge(&mut pg, ia, ib, e);
            proof {
                assert(ia == ka && ib == kb);
                assert forall|k: int| 0 <= k < j + 1 implies {
                    let (a, b, x) = #[trigger] petgraph_edges(pg)[k];
                    &&& x == listed_edges@[k].0
                    &&& a < ids@.len()
                    &&& b < ids@.len()
                    &&& ids@[a as int] == g.ports[g.edges[x].ends.0].node
                    &&& ids@[b as int] == g.ports[g.edges[x].ends.1].node
                } by {
                    if k < j {
                        assert(petgraph_edges(pg)[k] == before[k]);
                    }
                }
            }
            j = j + 1;
        }
        proof {
            assert forall|x: EdgeId| #[trigger] g.edges.contains_key(x) implies exists|k: int|
                0 <= k < petgraph_edges(pg).len() && petgraph_edges(pg)[k].2 == x by {
                let a = choose|a: int| 0 <= a < listed_edges@.len() && listed_edges@[a].0 == x;
                assert(petgraph_edges(pg)[a].2 == listed_edges@[a].0);
            }
            assert forall|k: int, l: int| 0 <= k < l < petgraph_edges(pg).len() implies slot_index(
                #[trigger] petgraph_edges(pg)[k].2@,
            ) < slot_index(#[trigger] petgraph_edges(pg)[l].2@) by {
                assert(petgraph_edges(pg)[k].2 == listed_edges@[k].0);
                assert(petgraph_edges(pg)[l].2 == listed_edges@[l].0);
            }
            assert forall|i: int| 0 <= i < petgraph_nodes(pg).len() implies self@.nodes.contains_key(
                #[trigger] petgraph_nodes(pg)[i],
            ) by {
                assert(ids@[i] == listed@[i].0);
            }
            assert forall|a: int, b: int| 0 <= a < b < petgraph_nodes(pg).len() implies slot_index(
                #[trigger] petgraph_nodes(pg)[a]@,
            ) < slot_index(#[trigger] petgraph_nodes(pg)[b]@) by {
                assert(ids@[a] == listed@[a].0 && ids@[b] == listed@[b].0);
            }
        }
        pg
    }
}

} // verus!
