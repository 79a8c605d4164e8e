//! Nets: the solver-facing view of connectivity.
//!
//! A net is everything that is electrically (or hydraulically) common: a
//! maximal set of ports joined, edge by edge, by edges. This module derives
//! the nets from the edges of a graph.

use crate::graph::Graph;
use crate::id::{EdgeId, PortId};
use crate::model::GraphView;
use crate::slots::slot_index;
use crate::union_find::UnionFind;
use crate::walks::{
    joined, lemma_closed_holds_joined, lemma_joined_map, lemma_joined_one_step, lemma_joined_refl,
    lemma_joined_trans,
};
use std::collections::HashMap;
use vstd::prelude::*;

verus! {

broadcast use {vstd::std_specs::hash::group_hash_axioms, crate::id::group_id_lemmas};

/// A maximal set of ports connected (transitively) by edges.
///
/// Isolated ports form singleton nets with no edges.
#[derive(Debug, Clone)]
pub struct Net {
    /// All ports on this net.
    pub ports: Vec<PortId>,
    /// All edges whose endpoints lie on this net.
    pub edges: Vec<EdgeId>,
}

impl Default for Net {
    /// A net with no port and no edge.
    fn default() -> (n: Net)
        ensures
            n.ports@ == Seq::<PortId>::empty(),
            n.edges@ == Seq::<EdgeId>::empty(),
    {
        Net { ports: Vec::new(), edges: Vec::new() }
    }
}

/// `nets` are the nets of `g`: each live port lies on exactly one of them,
/// two live ports lie on the same net exactly when they are joined by edges,
/// every net has a port, and each live edge lies, exactly once, on the net of
/// its endpoints.
pub open spec fn are_nets_of<N, P, E>(g: GraphView<N, P, E>, nets: Seq<Net>) -> bool {
    &&& forall|k: int| 0 <= k < nets.len() ==> (#[trigger] nets[k]).ports@.len() > 0
    &&& forall|k: int, i: int|
        0 <= k < nets.len() && 0 <= i < nets[k].ports@.len() ==> g.ports.contains_key(
            #[trigger] nets[k].ports@[i],
        )
    &&& forall|p: PortId|
        #[trigger] g.ports.contains_key(p) ==> exists|k: int|
            0 <= k < nets.len() && (#[trigger] nets[k]).ports@.contains(p)
    &&& forall|k1: int, i1: int, k2: int, i2: int|
        0 <= k1 < nets.len() && 0 <= i1 < nets[k1].ports@.len() && 0 <= k2 < nets.len() && 0 <= i2
            < nets[k2].ports@.len() && #[trigger] nets[k1].ports@[i1] == #[trigger] nets[k2].ports@[i2]
            ==> k1 == k2 && i1 == i2
    &&& forall|k1: int, i1: int, k2: int, i2: int|
        0 <= k1 < nets.len() && 0 <= i1 < nets[k1].ports@.len() && 0 <= k2 < nets.len() && 0 <= i2
            < nets[k2].ports@.len() ==> (g.ports_joined(
            #[trigger] nets[k1].ports@[i1],
            #[trigger] nets[k2].ports@[i2],
        ) <==> k1 == k2)
    &&& forall|k: int, i: int|
        0 <= k < nets.len() && 0 <= i < nets[k].edges@.len() ==> {
            let e = #[trigger] nets[k].edges@[i];
            &&& g.edges.contains_key(e)
            &&& nets[k].ports@.contains(g.edges[e].ends.0)
            &&& nets[k].ports@.contains(g.edges[e].ends.1)
        }
    &&& forall|e: EdgeId|
        #[trigger] g.edges.contains_key(e) ==> exists|k: int|
            0 <= k < nets.len() && (#[trigger] nets[k]).edges@.contains(e)
    &&& forall|k1: int, i1: int, k2: int, i2: int|
        0 <= k1 < nets.len() && 0 <= i1 < nets[k1].edges@.len() && 0 <= k2 < nets.len() && 0 <= i2
            < nets[k2].edges@.len() && #[trigger] nets[k1].edges@[i1] == #[trigger] nets[k2].edges@[i2]
            ==> k1 == k2 && i1 == i2
}

/// Indices `x` and `y` are the two ends of one of `pairs`.
pub open spec fn pair_step(pairs: Seq<(int, int)>) -> spec_fn(int, int) -> bool {
    |x: int, y: int| exists|k: int| 0 <= k < pairs.len() && (#[trigger] pairs[k] == (x, y) || pairs[k] == (y, x))
}

/// With no pairs, an index is joined only to itself.
proof fn lemma_no_pairs_joined(x: int, y: int)
    ensures
        joined(pair_step(Seq::<(int, int)>::empty()), x, y) <==> x == y,
{
    let st = pair_step(Seq::<(int, int)>::empty());
    if x == y {
        lemma_joined_refl(st, x);
    }
    if joined(st, x, y) {
        lemma_closed_holds_joined(st, set![x], x, y);
    }
}

/// The pairs among the first `j` are among the first `j + 1`.
proof fn lemma_pair_step_grows(pairs: Seq<(int, int)>, j: int, x: int, y: int)
    requires
        0 <= j < pairs.len(),
        joined(pair_step(pairs.take(j)), x, y),
    ensures
        joined(pair_step(pairs.take(j + 1)), x, y),
{
    let s1 = pair_step(pairs.take(j));
    let s2 = pair_step(pairs.take(j + 1));
    assert forall|u: int, v: int| #[trigger] s1(u, v) implies s2(u, v) by {
        let k = choose|k: int| 0 <= k < pairs.take(j).len() && (#[trigger] pairs.take(j)[k] == (u, v)
            || pairs.take(j)[k] == (v, u));
        assert(pairs.take(j + 1)[k] == pairs.take(j)[k]);
    }
    lemma_joined_map(s1, s2, |z: int| z, x, y);
}

/// After merging the sets of the ends of pair `j`, two indices share a set
/// exactly when they are joined by the first `j + 1` pairs, provided that
/// before it they shared a set exactly when joined by the first `j`.
proof fn lemma_union_step(
    before: UnionFind,
    after: UnionFind,
    n: int,
    pairs: Seq<(int, int)>,
    j: int,
)
    requires
        0 <= j < pairs.len(),
        forall|k: int| 0 <= k < pairs.len() ==> 0 <= (#[trigger] pairs[k]).0 < n && 0 <= pairs[k].1 < n,
        forall|x: int, y: int|
            0 <= x < n && 0 <= y < n ==> (#[trigger] before.root_of(x) == #[trigger] before.root_of(y)
                <==> joined(pair_step(pairs.take(j)), x, y)),
        forall|x: int, y: int|
            0 <= x < n && 0 <= y < n ==> (#[trigger] after.root_of(x) == #[trigger] after.root_of(y)
                <==> before.root_of(x) == before.root_of(y) || (before.root_of(x) == before.root_of(
                pairs[j].0,
            ) && before.root_of(y) == before.root_of(pairs[j].1)) || (before.root_of(x)
                == before.root_of(pairs[j].1) && before.root_of(y) == before.root_of(pairs[j].0))),
    ensures
        forall|x: int, y: int|
            0 <= x < n && 0 <= y < n ==> (#[trigger] after.root_of(x) == #[trigger] after.root_of(y)
                <==> joined(pair_step(pairs.take(j + 1)), x, y)),
{
    let a = pairs[j].0;
    let b = pairs[j].1;
    let s_old = pair_step(pairs.take(j));
    let s_new = pair_step(pairs.take(j + 1));
    assert(pairs.take(j + 1)[j] == (a, b));
    assert(s_new(a, b));
    assert(s_new(b, a));
    assert forall|x: int, y: int| 0 <= x < n && 0 <= y < n implies (#[trigger] after.root_of(x)
        == #[trigger] after.root_of(y) <==> joined(s_new, x, y)) by {
        if after.root_of(x) == after.root_of(y) {
            if before.root_of(x) == before.root_of(y) {
                lemma_pair_step_grows(pairs, j, x, y);
            } else if before.root_of(x) == before.root_of(a) && before.root_of(y) == before.root_of(b) {
                lemma_pair_step_grows(pairs, j, x, a);
                lemma_pair_step_grows(pairs, j, b, y);
                lemma_joined_one_step(s_new, a, b);
                lemma_joined_trans(s_new, x, a, b);
                lemma_joined_trans(s_new, x, b, y);
            } else {
                lemma_pair_step_grows(pairs, j, x, b);
                lemma_pair_step_grows(pairs, j, a, y);
                lemma_joined_one_step(s_new, b, a);
                lemma_joined_trans(s_new, x, b, a);
                lemma_joined_trans(s_new, x, a, y);
            }
        }
        if joined(s_new, x, y) {
            let cls = Set::new(|z: int| 0 <= z < n && after.root_of(z) == after.root_of(x));
            assert(after.root_of(a) == after.root_of(b));
            assert forall|u: int, v: int| #[trigger] cls.contains(u) && s_new(u, v) implies #[trigger] cls.contains(
                v,
            ) by {
                let k = choose|k: int| 0 <= k < pairs.take(j + 1).len() && (#[trigger] pairs.take(j + 1)[k]
                    == (u, v) || pairs.take(j + 1)[k] == (v, u));
                assert(pairs.take(j + 1)[k] == pairs[k]);
                if k < j {
                    assert(pairs.take(j)[k] == pairs[k]);
                    assert(s_old(u, v));
                    lemma_joined_one_step(s_old, u, v);
                    assert(before.root_of(u) == before.root_of(v));
                    assert(after.root_of(u) == after.root_of(v));
                } else {
                    assert(after.root_of(u) == after.root_of(v));
                }
            }
            lemma_closed_holds_joined(s_new, cls, x, y);
        }
    }
}

/// Joining ports edge by edge is joining their positions in `ids` over the
/// pairs of positions of the edges' ends, when `ids` lists every live port
/// once, `pos` is its inverse, and `pairs` lists the ends of every live edge.
proof fn lemma_ports_joined_by_positions<N, P, E>(
    g: GraphView<N, P, E>,
    ids: Seq<PortId>,
    pos: spec_fn(PortId) -> int,
    edges: Seq<EdgeId>,
    pairs: Seq<(int, int)>,
    p: PortId,
    q: PortId,
)
    requires
        g.is_consistent(),
        forall|i: int| 0 <= i < ids.len() ==> g.ports.contains_key(#[trigger] ids[i]),
        forall|i: int| 0 <= i < ids.len() ==> pos(#[trigger] ids[i]) == i,
        forall|x: PortId| #[trigger] g.ports.contains_key(x) ==> 0 <= pos(x) < ids.len() && ids[pos(x)] == x,
        forall|e: EdgeId| #[trigger] g.edges.contains_key(e) ==> exists|k: int| 0 <= k < edges.len() && edges[k] == e,
        pairs.len() == edges.len(),
        forall|k: int| 0 <= k < edges.len() ==> g.edges.contains_key(#[trigger] edges[k]),
        forall|k: int|
            0 <= k < edges.len() ==> #[trigger] pairs[k] == (
                pos(g.edges[edges[k]].ends.0),
                pos(g.edges[edges[k]].ends.1),
            ),
        g.ports.contains_key(p),
        g.ports.contains_key(q),
    ensures
        g.ports_joined(p, q) <==> joined(pair_step(pairs), pos(p), pos(q)),
{
    let sp = g.port_step();
    let si = pair_step(pairs);
    let back = |i: int| ids[i];
    assert forall|u: PortId, v: PortId| #[trigger] sp(u, v) implies si(pos(u), pos(v)) by {
        let e = choose|e: EdgeId| #![trigger g.edges[e]] g.edges.contains_key(e) && (g.edges[e].ends == (u, v)
            || g.edges[e].ends == (v, u));
        let k = choose|k: int| 0 <= k < edges.len() && edges[k] == e;
        assert(pairs[k] == (pos(g.edges[edges[k]].ends.0), pos(g.edges[edges[k]].ends.1)));
    }
    assert forall|x: int, y: int| #[trigger] si(x, y) implies sp(back(x), back(y)) by {
        let k = choose|k: int| 0 <= k < pairs.len() && (#[trigger] pairs[k] == (x, y) || pairs[k] == (y, x));
        let e = edges[k];
        assert(pairs[k] == (pos(g.edges[edges[k]].ends.0), pos(g.edges[edges[k]].ends.1)));
        let (a, b) = g.edges[e].ends;
        assert(g.ports.contains_key(a) && g.ports.contains_key(b));
        assert(ids[pos(a)] == a && ids[pos(b)] == b);
        assert(g.edges.contains_key(e) && (g.edges[e].ends == (back(x), back(y)) || g.edges[e].ends == (
        back(y), back(x))));
    }
    if g.ports_joined(p, q) {
        lemma_joined_map(sp, si, pos, p, q);
    }
    if joined(si, pos(p), pos(q)) {
        lemma_joined_map(si, sp, back, pos(p), pos(q));
        assert(back(pos(p)) == p && back(pos(q)) == q);
    }
}

/// The position of each port of `ids` in `ids`, keyed by the port's 64-bit
/// form.
fn port_positions(ids: &Vec<PortId>) -> (index: HashMap<u64, usize>)
    requires
        ids@.no_duplicates(),
    ensures
        forall|i: int| 0 <= i < ids@.len() ==> #[trigger] index@.contains_key(ids@[i]@) && index@[ids@[i]@] == i,
        forall|k: u64| #[trigger] index@.contains_key(k) ==> exists|i: int| 0 <= i < ids@.len() && ids@[i]@ == k,
{
    let mut index: HashMap<u64, usize> = HashMap::new();
    let mut i: usize = 0;
    while i < ids.len()
        invariant
            ids@.no_duplicates(),
            i <= ids@.len(),
            forall|a: int| 0 <= a < i ==> #[trigger] index@.contains_key(ids@[a]@) && index@[ids@[a]@] == a,
            forall|k: u64| #[trigger] index@.contains_key(k) ==> exists|a: int| 0 <= a < i && ids@[a]@ == k,
        decreases ids@.len() - i,
    {
        let p = ids[i];
        proof {
            assert forall|a: int| 0 <= a < i implies ids@[a]@ != p@ by {
                assert(ids@[a] != ids@[i as int]);
            }
        }
        index.insert(p.key(), i);
        i = i + 1;
    }
    index
}

impl<N, P, E> Graph<N, P, E> {
    /// Computes all nets: the connected components over ports, treating
    /// every edge as a perfect junction. Isolated ports form singleton nets
    /// with no edges. Nets come in the order of their first port; within a
    /// net, ports and edges keep the graph's slot order.
    #[verifier::rlimit(50)]
    #[verifier::spinoff_prover]
    pub fn nets(&self) -> (r: Vec<Net>)
        requires
            self.wf(),
        ensures
            are_nets_of(self@, r@),
            forall|k: int, t1: int, t2: int|
                0 <= k < r@.len() && 0 <= t1 < t2 < r@[k].ports@.len() ==> slot_index(
                    (#[trigger] r@[k].ports@[t1])@,
                ) < slot_index((#[trigger] r@[k].ports@[t2])@),
            forall|k: int, t1: int, t2: int|
                0 <= k < r@.len() && 0 <= t1 < t2 < r@[k].edges@.len() ==> slot_index(
                    (#[trigger] r@[k].edges@[t1])@,
                ) < slot_index((#[trigger] r@[k].edges@[t2])@),
            forall|k1: int, k2: int|
                0 <= k1 < k2 < r@.len() ==> slot_index((#[trigger] r@[k1]).ports@[0]@) < slot_index(
                    (#[trigger] r@[k2]).ports@[0]@,
                ),
    {
        let ghost g = self@;
        let live_ports = self.all_ports();
        let mut ids: Vec<PortId> = Vec::new();
        let mut i: usize = 0;
        while i < live_ports.len()
            invariant
                i <= live_ports@.len(),
                ids@.len() == i,
                forall|a: int| 0 <= a < i ==> #[trigger] ids@[a] == live_ports@[a].0,
            decreases live_ports@.len() - i,
        {
            ids.push(live_ports[i].0);
            i = i + 1;
        }
        let n = ids.len();
        proof {
            assert(ids@.no_duplicates()) by {
                assert forall|a: int, b: int| 0 <= a < b < n implies ids@[a] != ids@[b] by {
                    assert(crate::slots::slot_index(live_ports@[a].0@) < crate::slots::slot_index(
                        live_ports@[b].0@,
                    ));
                }
            }
        }
        let index = port_positions(&ids);
        let ghost pos = |x: PortId| index@[x@] as int;
        proof {
            assert forall|x: PortId| #[trigger] g.ports.contains_key(x) implies 0 <= pos(x) < n
                && ids@[pos(x)] == x by {
                let a = choose|a: int| 0 <= a < live_ports@.len() && live_ports@[a].0 == x;
                assert(ids@[a] == x);
                assert(index@.contains_key(ids@[a]@) && index@[ids@[a]@] == a);
            }
        }
        let live_edges = self.all_edges();
        let m = live_edges.len();
        let ghost edges = live_edges@.map_values(|x: (EdgeId, &E)| x.0);
        let ghost pairs = Seq::new(
            m as nat,
            |k: int| (pos(g.edges[edges[k]].ends.0), pos(g.edges[edges[k]].ends.1)),
        );
        proof {
            assert forall|k: int| 0 <= k < pairs.len() implies 0 <= (#[trigger] pairs[k]).0 < n && 0
                <= pairs[k].1 < n by {
                assert(g.edges.contains_key(live_edges@[k].0));
                let (a, b) = g.edges[edges[k]].ends;
                assert(g.ports.contains_key(a) && g.ports.contains_key(b));
            }
        }
        let mut uf = UnionFind::new(n);
        proof {
            assert(pairs.take(0) =~= Seq::<(int, int)>::empty());
            assert forall|x: int, y: int| 0 <= x < n && 0 <= y < n implies (#[trigger] uf.root_of(x)
                == #[trigger] uf.root_of(y) <==> joined(pair_step(pairs.take(0)), x, y)) by {
                lemma_no_pairs_joined(x, y);
            }
        }
        let mut j: usize = 0;
        while j < m
            invariant
                forall|a: int, b: int| #![trigger ids@[a], ids@[b]] 0 <= a < b < ids@.len() ==> crate::slots::slot_index(ids@[a]@) < crate::slots::slot_index(ids@[b]@),
                self.wf(),
                g == self@,
                j <= m,
                m == live_edges@.len(),
                m == pairs.len(),
                n == ids@.len(),
                edges == live_edges@.map_values(|x: (EdgeId, &E)| x.0),
                pairs == Seq::new(
                    m as nat,
                    |k: int| (pos(g.edges[edges[k]].ends.0), pos(g.edges[edges[k]].ends.1)),
                ),
                pos == (|x: PortId| index@[x@] as int),
                forall|i: int|
                    0 <= i < n ==> #[trigger] index@.contains_key(ids@[i]@) && index@[ids@[i]@] == i,
                forall|k: int| 0 <= k < m ==> g.edges.contains_key(#[trigger] live_edges@[k].0),
                forall|x: PortId| #[trigger]
                    g.ports.contains_key(x) ==> 0 <= pos(x) < n && ids@[pos(x)] == x,
                forall|k: int|
                    0 <= k < pairs.len() ==> 0 <= (#[trigger] pairs[k]).0 < n && 0 <= pairs[k].1 < n,
                uf.wf(),
                uf.len() == n,
                forall|x: int, y: int|
                    0 <= x < n && 0 <= y < n ==> (#[trigger] uf.root_of(x) == #[trigger] uf.root_of(y)
                        <==> joined(pair_step(pairs.take(j as int)), x, y)),
            decreases m - j,
        {
            let e = live_edges[j].0;
            let (a, b) = self.edge_endpoints(e).unwrap();
            proof {
                assert(g.ports.contains_key(a) && g.ports.contains_key(b));
                assert(edges[j as int] == e);
                assert(index@.contains_key(ids@[pos(a)]@));
                assert(index@.contains_key(ids@[pos(b)]@));
            }
            let ia = *index.get(&a.key()).unwrap();
            let ib = *index.get(&b.key()).unwrap();
            let ghost before = uf;
            proof {
                assert(pairs[j as int] == (ia as int, ib as int));
            }
            uf.union(ia, ib);
            proof {
                lemma_union_step(before, uf, n as int, pairs, j as int);
            }
            j = j + 1;
        }
        proof {
            assert(pairs.take(m as int) =~= pairs);
        }
        let ghost root = Seq::new(n as nat, |x: int| uf.root_of(x));
        proof {
            uf.lemma_roots_in_range();
            assert forall|x: int, y: int| 0 <= x < n && 0 <= y < n implies (#[trigger] root[x]
                == #[trigger] root[y] <==> joined(pair_step(pairs), x, y)) by {
                assert(uf.root_of(x) == root[x] && uf.root_of(y) == root[y]);
            }
        }
        let mut slot: Vec<usize> = Vec::new();
        let mut i: usize = 0;
        while i < n
            invariant
                forall|a: int, b: int| #![trigger ids@[a], ids@[b]] 0 <= a < b < ids@.len() ==> crate::slots::slot_index(ids@[a]@) < crate::slots::slot_index(ids@[b]@),
                i <= n,
                slot@.len() == i,
                forall|x: int| 0 <= x < i ==> #[trigger] slot@[x] == n,
            decreases n - i,
        {
            slot.push(n);
            i = i + 1;
        }
        let mut nets: Vec<Net> = Vec::new();
        let ghost mut roots: Seq<int> = Seq::empty();
        let mut i: usize = 0;
        while i < n
            invariant
                forall|a: int, b: int| #![trigger ids@[a], ids@[b]] 0 <= a < b < ids@.len() ==> crate::slots::slot_index(ids@[a]@) < crate::slots::slot_index(ids@[b]@),
                self.wf(),
                g == self@,
                i <= n,
                n == ids@.len(),
                pos == (|x: PortId| index@[x@] as int),
                forall|a: int| 0 <= a < n ==> g.ports.contains_key(#[trigger] ids@[a]),
                forall|a: int|
                    0 <= a < n ==> #[trigger] index@.contains_key(ids@[a]@) && index@[ids@[a]@] == a,
                forall|x: PortId| #[trigger]
                    g.ports.contains_key(x) ==> 0 <= pos(x) < n && ids@[pos(x)] == x,
                uf.wf(),
                uf.len() == n,
                root.len() == n,
                forall|x: int| 0 <= x < n ==> #[trigger] uf.root_of(x) == root[x],
                forall|x: int| 0 <= x < n ==> 0 <= #[trigger] root[x] < n,
                slot@.len() == n,
                nets@.len() == roots.len(),
                nets@.len() <= i,
                forall|k: int| 0 <= k < roots.len() ==> 0 <= #[trigger] roots[k] < n,
                forall|k: int| 0 <= k < roots.len() ==> slot@[#[trigger] roots[k]] == k,
                forall|r: int|
                    0 <= r < n ==> #[trigger] slot@[r] == n || (slot@[r] < roots.len()
                        && roots[slot@[r] as int] == r),
                forall|k: int| 0 <= k < nets@.len() ==> (#[trigger] nets@[k]).ports@.len() > 0,
                forall|k: int| 0 <= k < nets@.len() ==> (#[trigger] nets@[k]).edges@.len() == 0,
                forall|k: int, t: int|
                    0 <= k < nets@.len() && 0 <= t < nets@[k].ports@.len() ==> {
                        let p = #[trigger] nets@[k].ports@[t];
                        &&& g.ports.contains_key(p)
                        &&& pos(p) < i
                        &&& root[pos(p)] == roots[k]
                    },
                forall|k: int, t1: int, t2: int|
                    0 <= k < nets@.len() && 0 <= t1 < t2 < nets@[k].ports@.len() ==> pos(
                        #[trigger] nets@[k].ports@[t1],
                    ) < pos(#[trigger] nets@[k].ports@[t2]),
                forall|x: int|
                    0 <= x < i ==> slot@[#[trigger] root[x]] < nets@.len()
                        && nets@[slot@[root[x]] as int].ports@.contains(ids@[x]),
                forall|k1: int, k2: int|
                    0 <= k1 < k2 < nets@.len() ==> pos((#[trigger] nets@[k1]).ports@[0]) < pos(
                        (#[trigger] nets@[k2]).ports@[0],
                    ),
            decreases n - i,
        {
            let r = uf.find(i);
            proof {
                assert(r == root[i as int]);
            }
            let p = ids[i];
            proof {
                assert(index@.contains_key(ids@[i as int]@));
                assert(pos(p) == i);
            }
            let ghost before = nets@;
            let ghost slot_before = slot@;
            if slot[r] == n {
                let k = nets.len();
                slot.set(r, k);
                let mut ps: Vec<PortId> = Vec::new();
                ps.push(p);
                nets.push(Net { ports: ps, edges: Vec::new() });
                proof {
                    roots = roots.push(r as int);
                    assert(nets@[k as int].ports@[0] == p);
                    assert forall|x: int| 0 <= x < i + 1 implies slot@[#[trigger] root[x]] < nets@.len()
                        && nets@[slot@[root[x]] as int].ports@.contains(ids@[x]) by {
                        if x == i {
                            assert(nets@[k as int].ports@[0] == ids@[x]);
                        } else {
                            assert(slot_before[root[x]] < before.len());
                            assert(root[x] != r);
                            assert(slot@[root[x]] == slot_before[root[x]]);
                            let kx = slot@[root[x]] as int;
                            assert(nets@[kx] == before[kx]);
                            let t = choose|t: int|
                                0 <= t < before[kx].ports@.len() && before[kx].ports@[t] == ids@[x];
                            assert(nets@[kx].ports@[t] == ids@[x]);
                        }
                    }
                }
            } else {
                let k = slot[r];
                nets[k].ports.push(p);
                proof {
                    assert forall|x: int| 0 <= x < i + 1 implies slot@[#[trigger] root[x]] < nets@.len()
                        && nets@[slot@[root[x]] as int].ports@.contains(ids@[x]) by {
                        let kx = slot@[root[x]] as int;
                        if x == i {
                            assert(nets@[kx].ports@.last() == p);
                        } else {
                            let t = choose|t: int|
                                0 <= t < before[kx].ports@.len() && before[kx].ports@[t] == ids@[x];
                            assert(nets@[kx].ports@[t] == ids@[x]);
                        }
                    }
                }
            }
            i = i + 1;
        }
        let ghost port_nets = nets@;
        let mut j: usize = 0;
        while j < m
            invariant
                forall|a: int, b: int| #![trigger ids@[a], ids@[b]] 0 <= a < b < ids@.len() ==> crate::slots::slot_index(ids@[a]@) < crate::slots::slot_index(ids@[b]@),
                self.wf(),
                g == self@,
                n == ids@.len(),
                m == live_edges@.len(),
                m == pairs.len(),
                edges == live_edges@.map_values(|x: (EdgeId, &E)| x.0),
                pos == (|x: PortId| index@[x@] as int),
                forall|k: int| 0 <= k < m ==> g.edges.contains_key(#[trigger] live_edges@[k].0),
                forall|a: int, b: int|
                    0 <= a < b < m ==> crate::slots::slot_index(#[trigger] live_edges@[a].0@)
                        < crate::slots::slot_index(#[trigger] live_edges@[b].0@),
                forall|a: int| 0 <= a < n ==> g.ports.contains_key(#[trigger] ids@[a]),
                forall|a: int|
                    0 <= a < n ==> #[trigger] index@.contains_key(ids@[a]@) && index@[ids@[a]@] == a,
                forall|x: PortId| #[trigger]
                    g.ports.contains_key(x) ==> 0 <= pos(x) < n && ids@[pos(x)] == x,
                uf.wf(),
                uf.len() == n,
                root.len() == n,
                forall|x: int| 0 <= x < n ==> #[trigger] uf.root_of(x) == root[x],
                forall|x: int| 0 <= x < n ==> 0 <= #[trigger] root[x] < n,
                forall|x: int, y: int|
                    0 <= x < n && 0 <= y < n ==> (#[trigger] root[x] == #[trigger] root[y] <==> joined(
                        pair_step(pairs),
                        x,
                        y,
                    )),
                slot@.len() == n,
                nets@.len() == roots.len(),
                forall|k: int| 0 <= k < roots.len() ==> 0 <= #[trigger] roots[k] < n,
                forall|k: int| 0 <= k < roots.len() ==> slot@[#[trigger] roots[k]] == k,
                forall|k: int| 0 <= k < nets@.len() ==> (#[trigger] nets@[k]).ports@.len() > 0,
                j <= m,
                nets@.len() == port_nets.len(),
                forall|k: int| 0 <= k < nets@.len() ==> (#[trigger] nets@[k]).ports == port_nets[k].ports,
                forall|k: int, t: int|
                    0 <= k < port_nets.len() && 0 <= t < port_nets[k].ports@.len() ==> {
                        let p = #[trigger] port_nets[k].ports@[t];
                        &&& g.ports.contains_key(p)
                        &&& root[pos(p)] == roots[k]
                    },
                forall|k: int, t1: int, t2: int|
                    0 <= k < port_nets.len() && 0 <= t1 < t2 < port_nets[k].ports@.len() ==> pos(
                        #[trigger] port_nets[k].ports@[t1],
                    ) < pos(#[trigger] port_nets[k].ports@[t2]),
                forall|x: int|
                    0 <= x < n ==> slot@[#[trigger] root[x]] < port_nets.len()
                        && port_nets[slot@[root[x]] as int].ports@.contains(ids@[x]),
                forall|k1: int, k2: int|
                    0 <= k1 < k2 < port_nets.len() ==> pos((#[trigger] port_nets[k1]).ports@[0]) < pos(
                        (#[trigger] port_nets[k2]).ports@[0],
                    ),
                forall|k: int, t: int|
                    0 <= k < nets@.len() && 0 <= t < nets@[k].edges@.len() ==> {
                        let e = #[trigger] nets@[k].edges@[t];
                        &&& g.edges.contains_key(e)
                        &&& root[pos(g.edges[e].ends.0)] == roots[k]
                        &&& exists|q: int| 0 <= q < j && live_edges@[q].0 == e
                    },
                forall|k: int, t1: int, t2: int|
                    0 <= k < nets@.len() && 0 <= t1 < t2 < nets@[k].edges@.len()
                        ==> crate::slots::slot_index((#[trigger] nets@[k].edges@[t1])@)
                        < crate::slots::slot_index((#[trigger] nets@[k].edges@[t2])@),
                forall|q: int|
                    0 <= q < j ==> slot@[root[pos(g.edges[#[trigger] live_edges@[q].0].ends.0)]]
                        < nets@.len() && nets@[slot@[root[pos(
                        g.edges[live_edges@[q].0].ends.0,
                    )]] as int].edges@.contains(live_edges@[q].0),
            decreases m - j,
        {
            let e = live_edges[j].0;
            let (a, b) = self.edge_endpoints(e).unwrap();
            proof {
                assert(g.ports.contains_key(a));
                assert(index@.contains_key(ids@[pos(a)]@));
            }
            let ia = *index.get(&a.key()).unwrap();
            let r = uf.find(ia);
            proof {
                assert(r == root[pos(a)]);
                assert(port_nets[slot@[root[pos(a)]] as int].ports@.contains(ids@[pos(a)]));
            }
            let k = slot[r];
            let ghost before = nets@;
            nets[k].edges.push(e);
            proof {
                assert forall|kk: int, t: int|
                    0 <= kk < nets@.len() && 0 <= t < nets@[kk].edges@.len() implies {
                        let x = #[trigger] nets@[kk].edges@[t];
                        &&& g.edges.contains_key(x)
                        &&& root[pos(g.edges[x].ends.0)] == roots[kk]
                        &&& exists|q: int| 0 <= q < j + 1 && live_edges@[q].0 == x
                    } by {
                    if kk == k && t == before[kk].edges@.len() {
                        assert(nets@[kk].edges@[t] == e);
                        assert(live_edges@[j as int].0 == e);
                    } else {
                        assert(nets@[kk].edges@[t] == before[kk].edges@[t]);
                    }
                }
                assert forall|kk: int, t1: int, t2: int|
                    0 <= kk < nets@.len() && 0 <= t1 < t2 < nets@[kk].edges@.len() implies crate::slots::slot_index(
                        (#[trigger] nets@[kk].edges@[t1])@,
                    ) < crate::slots::slot_index((#[trigger] nets@[kk].edges@[t2])@) by {
                    if kk == k && t2 == before[kk].edges@.len() {
                        let x = before[kk].edges@[t1];
                        assert(nets@[kk].edges@[t1] == x);
                        let q = choose|q: int| 0 <= q < j && live_edges@[q].0 == x;
                        assert(crate::slots::slot_index(live_edges@[q].0@) < crate::slots::slot_index(
                            live_edges@[j as int].0@,
                        ));
                    } else {
                        assert(nets@[kk].edges@[t1] == before[kk].edges@[t1]);
                        assert(nets@[kk].edges@[t2] == before[kk].edges@[t2]);
                    }
                }
                assert forall|q: int| 0 <= q < j + 1 implies slot@[root[pos(
                    g.edges[#[trigger] live_edges@[q].0].ends.0,
                )]] < nets@.len() && nets@[slot@[root[pos(
                    g.edges[live_edges@[q].0].ends.0,
                )]] as int].edges@.contains(live_edges@[q].0) by {
                    if q == j {
                        assert(nets@[k as int].edges@.last() == e);
                    } else {
                        let kq = slot@[root[pos(g.edges[live_edges@[q].0].ends.0)]] as int;
                        let t = choose|t: int|
                            0 <= t < before[kq].edges@.len() && before[kq].edges@[t] == live_edges@[q].0;
                        assert(nets@[kq].edges@[t] == live_edges@[q].0);
                    }
                }
            }
            j = j + 1;
        }
        proof {
            let r = nets@;
            assert forall|e: EdgeId| #[trigger] g.edges.contains_key(e) implies exists|k: int|
                0 <= k < edges.len() && edges[k] == e by {
                let q = choose|q: int| 0 <= q < live_edges@.len() && live_edges@[q].0 == e;
                assert(edges[q] == e);
            }
            assert forall|k1: int, k2: int|
                0 <= k1 < r.len() && 0 <= k2 < r.len() && #[trigger] roots[k1] == #[trigger] roots[k2]
                implies k1 == k2 by {
                assert(slot@[roots[k1]] == k1 && slot@[roots[k2]] == k2);
            }
            assert forall|k: int, i: int|
                0 <= k < r.len() && 0 <= i < r[k].ports@.len() implies g.ports.contains_key(
                #[trigger] r[k].ports@[i],
            ) by {
                assert(r[k].ports@[i] == port_nets[k].ports@[i]);
            }
            assert forall|p: PortId| #[trigger] g.ports.contains_key(p) implies exists|k: int|
                0 <= k < r.len() && (#[trigger] r[k]).ports@.contains(p) by {
                let x = pos(p);
                let k = slot@[root[x]] as int;
                assert(port_nets[k].ports@.contains(ids@[x]));
                assert(r[k].ports == port_nets[k].ports);
            }
            assert forall|k1: int, i1: int, k2: int, i2: int|
                0 <= k1 < r.len() && 0 <= i1 < r[k1].ports@.len() && 0 <= k2 < r.len() && 0 <= i2
                    < r[k2].ports@.len() && #[trigger] r[k1].ports@[i1] == #[trigger] r[k2].ports@[i2]
                implies k1 == k2 && i1 == i2 by {
                let p = r[k1].ports@[i1];
                assert(p == port_nets[k1].ports@[i1]);
                assert(p == port_nets[k2].ports@[i2]);
                assert(roots[k1] == root[pos(p)] && roots[k2] == root[pos(p)]);
                if i1 < i2 {
                    assert(pos(port_nets[k1].ports@[i1]) < pos(port_nets[k1].ports@[i2]));
                } else if i2 < i1 {
                    assert(pos(port_nets[k1].ports@[i2]) < pos(port_nets[k1].ports@[i1]));
                }
            }
            assert forall|k1: int, i1: int, k2: int, i2: int|
                0 <= k1 < r.len() && 0 <= i1 < r[k1].ports@.len() && 0 <= k2 < r.len() && 0 <= i2
                    < r[k2].ports@.len() implies (g.ports_joined(
                #[trigger] r[k1].ports@[i1],
                #[trigger] r[k2].ports@[i2],
            ) <==> k1 == k2) by {
                let p = r[k1].ports@[i1];
                let q = r[k2].ports@[i2];
                assert(p == port_nets[k1].ports@[i1]);
                assert(q == port_nets[k2].ports@[i2]);
                lemma_ports_joined_by_positions(g, ids@, pos, edges, pairs, p, q);
                assert(root[pos(p)] == root[pos(q)] <==> joined(pair_step(pairs), pos(p), pos(q)));
            }
            assert forall|k: int, i: int| 0 <= k < r.len() && 0 <= i < r[k].edges@.len() implies {
                let e = #[trigger] r[k].edges@[i];
                &&& g.edges.contains_key(e)
                &&& r[k].ports@.contains(g.edges[e].ends.0)
                &&& r[k].ports@.contains(g.edges[e].ends.1)
            } by {
                let e = r[k].edges@[i];
                let (a, b) = g.edges[e].ends;
                let q = choose|q: int| 0 <= q < j && live_edges@[q].0 == e;
                assert(edges[q] == e);
                assert(pairs[q] == (pos(a), pos(b)));
                assert(g.ports.contains_key(a) && g.ports.contains_key(b));
                lemma_joined_one_step(pair_step(pairs), pos(a), pos(b));
                assert(root[pos(a)] == root[pos(b)]);
                assert(port_nets[slot@[root[pos(a)]] as int].ports@.contains(ids@[pos(a)]));
                assert(port_nets[slot@[root[pos(b)]] as int].ports@.contains(ids@[pos(b)]));
                assert(r[k].ports == port_nets[k].ports);
            }
            assert forall|e: EdgeId| #[trigger] g.edges.contains_key(e) implies exists|k: int|
                0 <= k < r.len() && (#[trigger] r[k]).edges@.contains(e) by {
                let q = choose|q: int| 0 <= q < live_edges@.len() && live_edges@[q].0 == e;
                assert(nets@[slot@[root[pos(g.edges[live_edges@[q].0].ends.0)]] as int].edges@.contains(
                    live_edges@[q].0,
                ));
            }
            assert forall|k1: int, i1: int, k2: int, i2: int|
                0 <= k1 < r.len() && 0 <= i1 < r[k1].edges@.len() && 0 <= k2 < r.len() && 0 <= i2
                    < r[k2].edges@.len() && #[trigger] r[k1].edges@[i1] == #[trigger] r[k2].edges@[i2]
                implies k1 == k2 && i1 == i2 by {
                let e = r[k1].edges@[i1];
                assert(roots[k1] == root[pos(g.edges[e].ends.0)]);
                assert(roots[k2] == root[pos(g.edges[e].ends.0)]);
                if i1 < i2 {
                    assert(crate::slots::slot_index(r[k1].edges@[i1]@) < crate::slots::slot_index(r[k1].edges@[i2]@));
                } else if i2 < i1 {
                    assert(crate::slots::slot_index(r[k1].edges@[i2]@) < crate::slots::slot_index(r[k1].edges@[i1]@));
                }
            }
        }
        nets
    }
}

} // verus!
