//! Graph traversal over the component graph (nodes joined by wires):
//! connected components, cycle and cutset rank, breadth- and depth-first
//! search.

use crate::graph::Graph;
use crate::id::NodeId;
use crate::model::{
    lemma_neighbor_live, lemma_same_component, GraphView,
};
use crate::walks::{lemma_closed_holds_joined, lemma_joined_one_step, lemma_joined_refl, lemma_joined_trans};
use std::collections::{HashSet, VecDeque};
use vstd::prelude::*;

verus! {

broadcast use {vstd::std_specs::hash::group_hash_axioms, crate::id::group_id_lemmas};

/// The nodes reachable from one of the first `i` nodes of `ids`.
pub open spec fn reached_from_prefix<N, P, E>(g: GraphView<N, P, E>, ids: Seq<NodeId>, i: int, x: NodeId) -> bool {
    exists|j: int| 0 <= j < i && #[trigger] g.reachable(ids[j], x)
}

/// `found` is what a search from `start` finds: each node once, every node
/// in it live, reachable from `start` and accepted by `predicate`, and every
/// live node reachable from `start` in it unless `predicate` can refuse it.
pub open spec fn search_found<N, P, E, F: Fn(&N) -> bool>(
    g: GraphView<N, P, E>,
    start: NodeId,
    predicate: F,
    found: Seq<NodeId>,
) -> bool {
    &&& found.no_duplicates()
    &&& forall|i: int|
        0 <= i < found.len() ==> {
            let x = #[trigger] found[i];
            &&& g.nodes.contains_key(x)
            &&& g.reachable(start, x)
            &&& predicate.ensures((&g.nodes[x].data,), true)
        }
    &&& forall|x: NodeId|
        g.nodes.contains_key(x) && #[trigger] g.reachable(start, x) ==> found.contains(x)
            || predicate.ensures((&g.nodes[x].data,), false)
}

/// Node `x` can be reached from `s` in at most `k` neighbor steps.
pub open spec fn within<N, P, E>(g: GraphView<N, P, E>, s: NodeId, x: NodeId, k: nat) -> bool
    decreases k,
{
    if k == 0 {
        x == s
    } else {
        within(g, s, x, (k - 1) as nat) || exists|y: NodeId|
            within(g, s, y, (k - 1) as nat) && #[trigger] g.neighbors(y).contains(x)
    }
}

/// Node `x` is no farther from `s` than node `y`: every bound on the steps
/// that reach `y` also reaches `x`.
pub open spec fn no_farther<N, P, E>(g: GraphView<N, P, E>, s: NodeId, x: NodeId, y: NodeId) -> bool {
    forall|k: nat| #[trigger] within(g, s, y, k) ==> within(g, s, x, k)
}

/// The nodes of `order` come in nondecreasing distance from `s`.
#[verifier::opaque]
spec fn by_distance<N, P, E>(g: GraphView<N, P, E>, s: NodeId, order: Seq<NodeId>) -> bool {
    forall|i: int, j: int|
        #![trigger order[i], order[j]]
        0 <= i < j < order.len() ==> no_farther(g, s, order[i], order[j])
}

/// `a` is `b` with some entries left out: the entries of `a` stand in `b`
/// in the same order.
pub open spec fn is_subsequence(a: Seq<NodeId>, b: Seq<NodeId>) -> bool {
    exists|idx: Seq<int>|
        #![trigger idx.len()]
        idx.len() == a.len() && (forall|k: int| 0 <= k < idx.len() ==> 0 <= #[trigger] idx[k] < b.len() && b[idx[k]] == a[k])
            && (forall|k: int, l: int| 0 <= k < l < idx.len() ==> #[trigger] idx[k] < #[trigger] idx[l])
}

/// Breadth-first bookkeeping for one expanded node: each of its neighbors
/// `ns`, in order, joins the back of `queue` unless it was seen before.
pub open spec fn enqueue_new(ns: Seq<NodeId>, queue: Seq<NodeId>, seen: Set<NodeId>) -> (Seq<NodeId>, Set<NodeId>)
    decreases ns.len(),
{
    if ns.len() == 0 {
        (queue, seen)
    } else {
        let (q, s) = enqueue_new(ns.drop_last(), queue, seen);
        if s.contains(ns.last()) {
            (q, s)
        } else {
            (q.push(ns.last()), s.insert(ns.last()))
        }
    }
}

/// The nodes a breadth-first search expands, in order, starting from
/// `queue` with `seen` marked, for at most `fuel` expansions.
pub open spec fn bfs_visit<N, P, E>(g: GraphView<N, P, E>, queue: Seq<NodeId>, seen: Set<NodeId>, fuel: nat) -> Seq<
    NodeId,
>
    decreases fuel,
{
    if fuel == 0 || queue.len() == 0 {
        Seq::empty()
    } else {
        let next = enqueue_new(g.neighbors(queue[0]), queue.drop_first(), seen);
        seq![queue[0]] + bfs_visit(g, next.0, next.1, (fuel - 1) as nat)
    }
}

/// The order in which a breadth-first search from `start` expands nodes:
/// the queue starts with `start`, and each expanded node's unseen
/// neighbors join it in neighbor order. No search expands more nodes than
/// the live ones and `start`, the fuel given.
pub open spec fn bfs_order<N, P, E>(g: GraphView<N, P, E>, start: NodeId) -> Seq<NodeId> {
    bfs_visit(g, seq![start], set![start], g.nodes.dom().insert(start).len())
}

/// The filter that keeps the nodes outside `s`.
pub open spec fn unseen(s: Set<NodeId>) -> spec_fn(NodeId) -> bool {
    |m: NodeId| !s.contains(m)
}

/// The nodes a depth-first search expands, in order, starting from
/// `stack` (its top last) with `seen` marked; every node it meets lies in
/// the finite set `u`. The top of the stack is taken off; if unseen, it is
/// expanded, marked, and its unseen neighbors are pushed in neighbor order.
pub open spec fn dfs_visit<N, P, E>(g: GraphView<N, P, E>, u: Set<NodeId>, stack: Seq<NodeId>, seen: Set<NodeId>) -> Seq<
    NodeId,
>
    decreases u.len() - seen.len(), stack.len(),
    when u.finite() && seen.subset_of(u) && (forall|i: int| 0 <= i < stack.len() ==> u.contains(#[trigger] stack[i]))
{
    if stack.len() == 0 {
        Seq::empty()
    } else {
        let n = stack.last();
        if seen.contains(n) {
            dfs_visit(g, u, stack.drop_last(), seen)
        } else {
            proof {
                assert(u.contains(stack[stack.len() - 1]));
                vstd::set_lib::lemma_len_subset(seen.insert(n), u);
            }
            seq![n] + dfs_visit(
                g,
                u,
                stack.drop_last() + g.neighbors(n).filter(unseen(seen.insert(n))),
                seen.insert(n),
            )
        }
    }
}

/// The order in which a depth-first search from `start` expands nodes.
pub open spec fn dfs_order<N, P, E>(g: GraphView<N, P, E>, start: NodeId) -> Seq<NodeId> {
    dfs_visit(g, g.nodes.dom().insert(start), seq![start], Set::empty())
}

/// Taking the front off a breadth-first queue that holds `order` from
/// `h0` on: the visit from the queue is that front node followed by the
/// visit with its unseen neighbors enqueued, and no node of `order` lies
/// more than one step farther from `s` than the front.
proof fn lemma_bfs_pop<N, P, E>(
    g: GraphView<N, P, E>,
    s: NodeId,
    order: Seq<NodeId>,
    h0: int,
    q0: Seq<NodeId>,
    vis: Set<NodeId>,
    u: Set<NodeId>,
)
    requires
        u.finite(),
        0 <= h0 < order.len(),
        q0 == order.subrange(h0, order.len() as int),
        order.no_duplicates(),
        forall|x: NodeId| #[trigger] vis.contains(x) <==> order.contains(x),
        vis.subset_of(u),
        order[0] == s,
        h0 == 0 ==> order.len() == 1,
        by_distance(g, s, order),
        h0 > 0 ==> forall|i: int, k: nat|
            0 <= i < order.len() && #[trigger] within(g, s, order[h0 - 1], k) ==> within(
                g,
                s,
                #[trigger] order[i],
                k + 1,
            ),
    ensures
        q0.len() > 0,
        order[h0] == q0[0],
        u.len() - h0 >= 1,
        bfs_visit(g, q0, vis, (u.len() - h0) as nat) == seq![q0[0]] + bfs_visit(
            g,
            enqueue_new(g.neighbors(q0[0]), q0.drop_first(), vis).0,
            enqueue_new(g.neighbors(q0[0]), q0.drop_first(), vis).1,
            (u.len() - h0 - 1) as nat,
        ),
        forall|i: int, k: nat|
            0 <= i < order.len() && #[trigger] within(g, s, order[h0], k) ==> within(g, s, #[trigger] order[i], k + 1),
{
    reveal(by_distance);
    assert(order.to_set().subset_of(u)) by {
        assert forall|x: NodeId| #[trigger] order.to_set().contains(x) implies u.contains(x) by {
            assert(vis.contains(x));
        }
    }
    order.unique_seq_to_set();
    vstd::set_lib::lemma_len_subset(order.to_set(), u);
    assert(q0[0] == order[h0]);
    assert forall|i: int, k: nat| 0 <= i < order.len() && #[trigger] within(g, s, order[h0], k) implies within(
        g,
        s,
        #[trigger] order[i],
        k + 1,
    ) by {
        if h0 == 0 {
            assert(order[i] == s);
        } else {
            assert(no_farther(g, s, order[h0 - 1], order[h0]));
        }
    }
}

/// One step of a depth-first visit over a consistent graph, where `u`
/// holds every live node: a seen top is dropped, an unseen one is expanded.
proof fn lemma_dfs_step<N, P, E>(g: GraphView<N, P, E>, u: Set<NodeId>, s: Seq<NodeId>, seen: Set<NodeId>)
    requires
        g.is_consistent(),
        u.finite(),
        g.nodes.dom().subset_of(u),
        seen.subset_of(u),
        forall|i: int| 0 <= i < s.len() ==> u.contains(#[trigger] s[i]),
        s.len() > 0,
    ensures
        seen.contains(s.last()) ==> dfs_visit(g, u, s, seen) == dfs_visit(g, u, s.drop_last(), seen),
        !seen.contains(s.last()) ==> dfs_visit(g, u, s, seen) == seq![s.last()] + dfs_visit(
            g,
            u,
            s.drop_last() + g.neighbors(s.last()).filter(unseen(seen.insert(s.last()))),
            seen.insert(s.last()),
        ),
{
    let n = s.last();
    assert(u.contains(s[s.len() - 1]));
    let f = g.neighbors(n).filter(unseen(seen.insert(n)));
    let rest = s.drop_last() + f;
    assert forall|i: int| 0 <= i < rest.len() implies u.contains(#[trigger] rest[i]) by {
        if i >= s.len() - 1 {
            let x = rest[i];
            assert(f[i - (s.len() - 1)] == x);
            assert(f.contains(x));
            crate::seqs::lemma_filter_contains_iff(g.neighbors(n), unseen(seen.insert(n)), x);
            lemma_neighbor_live(g, n, x);
        } else {
            assert(rest[i] == s[i]);
        }
    }
    assert forall|i: int| 0 <= i < s.drop_last().len() implies u.contains(#[trigger] s.drop_last()[i]) by {
        assert(s.drop_last()[i] == s[i]);
    }
    assert(seen.insert(n).subset_of(u));
}

/// In a breadth-first visit `order` whose first `p` nodes have been
/// expanded, the node at `p` is no farther from `s` than any node outside
/// the expanded prefix.
proof fn lemma_front_nearest<N, P, E>(
    g: GraphView<N, P, E>,
    s: NodeId,
    order: Seq<NodeId>,
    p: int,
    x: NodeId,
    k: nat,
)
    requires
        0 <= p < order.len(),
        order.contains(s),
        by_distance(g, s, order),
        forall|i: int, m: NodeId|
            0 <= i < p && #[trigger] g.neighbors(order[i]).contains(m) ==> order.contains(m),
        !order.subrange(0, p).contains(x),
        within(g, s, x, k),
    ensures
        within(g, s, order[p], k),
    decreases k,
{
    reveal(by_distance);
    if order.contains(x) {
        let j = choose|j: int| 0 <= j < order.len() && order[j] == x;
        if j < p {
            assert(order.subrange(0, p)[j] == x);
        } else if j > p {
            assert(no_farther(g, s, order[p], order[j]));
        }
    } else if k > 0 {
        if within(g, s, x, (k - 1) as nat) {
            lemma_front_nearest(g, s, order, p, x, (k - 1) as nat);
        } else {
            let y = choose|y: NodeId| within(g, s, y, (k - 1) as nat) && #[trigger] g.neighbors(y).contains(x);
            if order.subrange(0, p).contains(y) {
                let i = choose|i: int| 0 <= i < p && order.subrange(0, p)[i] == y;
                assert(order[i] == y);
            }
            lemma_front_nearest(g, s, order, p, y, (k - 1) as nat);
        }
    }
}

/// A node first met as a neighbor of the node at `p` of a breadth-first
/// visit is one step farther than it: every bound that reaches it, less
/// one, reaches the node at `p`.
proof fn lemma_next_layer<N, P, E>(
    g: GraphView<N, P, E>,
    s: NodeId,
    order: Seq<NodeId>,
    p: int,
    m: NodeId,
    k: nat,
)
    requires
        0 <= p < order.len(),
        order.contains(s),
        by_distance(g, s, order),
        forall|i: int, q: NodeId|
            0 <= i < p && #[trigger] g.neighbors(order[i]).contains(q) ==> order.contains(q),
        !order.contains(m),
        within(g, s, m, k),
    ensures
        k >= 1,
        within(g, s, order[p], (k - 1) as nat),
    decreases k,
{
    reveal(by_distance);
    if k > 0 {
        if within(g, s, m, (k - 1) as nat) {
            lemma_next_layer(g, s, order, p, m, (k - 1) as nat);
        } else {
            let y = choose|y: NodeId| within(g, s, y, (k - 1) as nat) && #[trigger] g.neighbors(y).contains(m);
            if order.subrange(0, p).contains(y) {
                let i = choose|i: int| 0 <= i < p && order.subrange(0, p)[i] == y;
                assert(order[i] == y);
            }
            lemma_front_nearest(g, s, order, p, y, (k - 1) as nat);
        }
    }
}

impl<N, P, E> Graph<N, P, E> {
    /// Number of connected components of the component graph (nodes joined
    /// by wires). Isolated nodes each count as one.
    pub fn connected_components(&self) -> (c: usize)
        requires
            self.wf(),
        ensures
            c == self@.components().len(),
    {
        let ghost g = self@;
        let order = self.nodes();
        let ghost ids = order@.map_values(|x: (NodeId, &N)| x.0);
        let mut seen: HashSet<u64> = HashSet::new();
        let ghost mut visited: Set<NodeId> = Set::empty();
        let mut count: usize = 0;
        let mut i: usize = 0;
        proof {
            assert(ids.take(0).to_set().map(|n: NodeId| g.component(n)) =~= Set::<Set<NodeId>>::empty());
        }
        while i < order.len()
            invariant
                self.wf(),
                g == self@,
                i <= order@.len(),
                ids == order@.map_values(|x: (NodeId, &N)| x.0),
                order@.len() == g.nodes.len(),
                forall|a: int| 0 <= a < order@.len() ==> g.nodes.contains_key(#[trigger] order@[a].0),
                forall|x: NodeId| #[trigger]
                    g.nodes.contains_key(x) ==> exists|a: int| 0 <= a < order@.len() && order@[a].0 == x,
                forall|x: NodeId| seen@.contains(x@) <==> #[trigger] visited.contains(x),
                forall|x: NodeId| #[trigger] visited.contains(x) <==> reached_from_prefix(g, ids, i as int, x),
                visited.subset_of(g.nodes.dom()),
                count == ids.take(i as int).to_set().map(|n: NodeId| g.component(n)).len(),
                count <= i,
            decreases order@.len() - i,
        {
            let start = order[i].0;
            proof {
                assert(ids[i as int] == start);
            }
            let ghost before_visited = visited;
            let ghost classes = ids.take(i as int).to_set().map(|n: NodeId| g.component(n));
            proof {
                assert(ids.take(i as int + 1).to_set() =~= ids.take(i as int).to_set().insert(start)) by {
                    assert(ids.take(i as int + 1) =~= ids.take(i as int).push(start));
                    assert forall|x: NodeId| #[trigger] ids.take(i as int + 1).to_set().contains(x) <==> (
                    ids.take(i as int).to_set().contains(x) || x == start) by {
                        crate::seqs::lemma_push_contains(ids.take(i as int), start, x);
                    }
                }
                ids.take(i as int).to_set().lemma_set_map_insert_commute(start, |n: NodeId| g.component(n));
                ids.take(i as int).to_set().lemma_map_finite(|n: NodeId| g.component(n));
                assert forall|x: NodeId, m: NodeId|
                    before_visited.contains(x) && #[trigger] g.neighbors(x).contains(m) implies before_visited.contains(m) by {
                    let j = choose|j: int| 0 <= j < i && #[trigger] g.reachable(ids[j], x);
                    lemma_joined_one_step(g.node_step(), x, m);
                    lemma_joined_trans(g.node_step(), ids[j], x, m);
                    assert(g.reachable(ids[j], m));
                    assert(reached_from_prefix(g, ids, i as int, m));
                }
            }
            if seen.insert(start.key()) {
                proof {
                    assert(!before_visited.contains(start));
                    assert(!classes.contains(g.component(start))) by {
                        if classes.contains(g.component(start)) {
                            let y = choose|y: NodeId| ids.take(i as int).to_set().contains(y) && g.component(y) == g.component(start);
                            let j = choose|j: int| 0 <= j < i && ids.take(i as int)[j] == y;
                            lemma_joined_refl(g.node_step(), start);
                            assert(g.component(start).contains(start));
                            assert(g.reachable(ids[j], start));
                        }
                    }
                    visited = visited.insert(start);
                }
                count = count + 1;
                let mut stack: Vec<NodeId> = Vec::new();
                stack.push(start);
                proof {
                    lemma_joined_refl(g.node_step(), start);
                    assert forall|x: NodeId, m: NodeId|
                        visited.contains(x) && !stack@.contains(x) && #[trigger] g.neighbors(x).contains(m)
                        implies visited.contains(m) by {
                        if x != start {
                            assert(reached_from_prefix(g, ids, i as int, x));
                            let j = choose|j: int| 0 <= j < i && #[trigger] g.reachable(ids[j], x);
                            lemma_joined_one_step(g.node_step(), x, m);
                            lemma_joined_trans(g.node_step(), ids[j], x, m);
                            assert(g.reachable(ids[j], m));
                            assert(reached_from_prefix(g, ids, i as int, m));
                        } else {
                            assert(stack@[0] == start);
                        }
                    }
                }
                while stack.len() > 0
                    invariant
                        self.wf(),
                        g == self@,
                        forall|x: NodeId| seen@.contains(x@) <==> #[trigger] visited.contains(x),
                        visited.subset_of(g.nodes.dom()),
                        visited.contains(start),
                        g.nodes.contains_key(start),
                        forall|x: NodeId| #[trigger]
                            visited.contains(x) ==> before_visited.contains(x) || g.reachable(start, x),
                        forall|x: NodeId| #[trigger] before_visited.contains(x) ==> visited.contains(x),
                        ids[i as int] == start,
                        forall|x: NodeId| #[trigger] before_visited.contains(x) <==> reached_from_prefix(g, ids, i as int, x),
                        forall|x: NodeId, m: NodeId|
                            before_visited.contains(x) && #[trigger] g.neighbors(x).contains(m) ==> before_visited.contains(m),
                        forall|k: int| 0 <= k < stack@.len() ==> visited.contains(#[trigger] stack@[k]),
                        forall|x: NodeId, m: NodeId|
                            visited.contains(x) && !stack@.contains(x) && #[trigger] g.neighbors(x).contains(m)
                                ==> visited.contains(m),
                    decreases g.nodes.len() - visited.len(), stack@.len(),
                {
                    let ghost stack_before_pop = stack@;
                    let n = stack.pop().unwrap();
                    proof {
                        assert(stack_before_pop =~= stack@.push(n));
                        assert forall|x: NodeId, m: NodeId|
                            visited.contains(x) && x != n && !stack@.contains(x) && #[trigger] g.neighbors(x).contains(m)
                            implies visited.contains(m) by {
                            crate::seqs::lemma_push_contains(stack@, n, x);
                        }
                    }
                    let ns = self.neighbors(n);
                    let ghost visited_at_pop = visited;
                    let ghost stack_at_pop = stack@;
                    let mut t: usize = 0;
                    while t < ns.len()
                        invariant
                            self.wf(),
                            g == self@,
                            ns@ == g.neighbors(n),
                            visited.contains(n),
                            t <= ns@.len(),
                            forall|x: NodeId| seen@.contains(x@) <==> #[trigger] visited.contains(x),
                            visited.subset_of(g.nodes.dom()),
                            visited.contains(start),
                            g.nodes.contains_key(start),
                            forall|x: NodeId| #[trigger]
                                visited.contains(x) ==> before_visited.contains(x) || g.reachable(start, x),
                            forall|x: NodeId| #[trigger] before_visited.contains(x) ==> visited.contains(x),
                            forall|x: NodeId| #[trigger] visited_at_pop.contains(x) ==> visited.contains(x),
                            ids[i as int] == start,
                            forall|x: NodeId| #[trigger] before_visited.contains(x) <==> reached_from_prefix(g, ids, i as int, x),
                            forall|x: NodeId, m: NodeId|
                                before_visited.contains(x) && #[trigger] g.neighbors(x).contains(m) ==> before_visited.contains(m),

                            visited_at_pop.len() <= visited.len(),
                            visited_at_pop.finite(),
                            visited.finite(),
                            stack@.len() >= stack_at_pop.len(),
                            stack@.len() > stack_at_pop.len() ==> visited_at_pop.len() < visited.len(),
                            forall|k: int| 0 <= k < stack_at_pop.len() ==> stack@[k] == stack_at_pop[k],
                            forall|k: int| 0 <= k < stack@.len() ==> visited.contains(#[trigger] stack@[k]),
                            forall|x: NodeId, m: NodeId|
                                visited.contains(x) && x != n && !stack@.contains(x) && #[trigger] g.neighbors(
                                    x,
                                ).contains(m) ==> visited.contains(m),
                            forall|k: int| 0 <= k < t ==> visited.contains(#[trigger] ns@[k]),
                        decreases ns@.len() - t,
                    {
                        let m = ns[t];
                        proof {
                            assert(g.neighbors(n).contains(m));
                            lemma_neighbor_live(g, n, m);
                        }
                        let ghost stack_before_push = stack@;
                        if seen.insert(m.key()) {
                            stack.push(m);
                            proof {
                                assert forall|x: NodeId| !stack@.contains(x) implies !stack_before_push.contains(x) by {
                                    crate::seqs::lemma_push_contains(stack_before_push, m, x);
                                }
                            }
                            proof {
                                let ghost old_v = visited;
                                visited = visited.insert(m);
                                assert forall|x: NodeId, y: NodeId|
                                    visited.contains(x) && x != n && !stack@.contains(x)
                                        && #[trigger] g.neighbors(x).contains(y) implies visited.contains(y) by {
                                    assert(stack@.last() == m);
                                    assert(stack@.contains(m));
                                    assert(x != m);
                                    assert(old_v.contains(x));
                                    assert(!stack_before_push.contains(x));
                                }
                                assert(!before_visited.contains(m));
                                assert(!before_visited.contains(n));
                                assert(g.reachable(start, m)) by {
                                    lemma_joined_one_step(g.node_step(), n, m);
                                    lemma_joined_trans(g.node_step(), start, n, m);
                                }
                            }
                        }
                        t = t + 1;
                    }
                    proof {
                        vstd::set_lib::lemma_len_subset(visited, g.nodes.dom());
                    }
                }
                proof {
                    assert forall|x: NodeId| g.reachable(start, x) implies visited.contains(x) by {
                        assert forall|u: NodeId, v: NodeId| #[trigger] visited.contains(u) && g.node_step()(u, v)
                            implies #[trigger] visited.contains(v) by {
                            assert(!stack@.contains(u));
                        }
                        lemma_closed_holds_joined(g.node_step(), visited, start, x);
                    }
                    assert forall|x: NodeId| #[trigger] visited.contains(x) <==> (before_visited.contains(x)
                        || g.reachable(start, x)) by {}
                }
            } else {
                proof {
                    assert(before_visited.contains(start));
                    let j = choose|j: int| 0 <= j < i && #[trigger] g.reachable(ids[j], start);
                    lemma_same_component(g, ids[j], start);
                    assert(ids.take(i as int).to_set().contains(ids[j])) by {
                        assert(ids.take(i as int)[j] == ids[j]);
                    }
                    assert(classes.contains(g.component(start)));
                    assert(classes.insert(g.component(start)) =~= classes);
                    assert forall|x: NodeId| g.reachable(start, x) implies before_visited.contains(x) by {
                        assert forall|u: NodeId, v: NodeId| #[trigger] before_visited.contains(u) && g.node_step()(u, v)
                            implies #[trigger] before_visited.contains(v) by {}
                        lemma_closed_holds_joined(g.node_step(), before_visited, start, x);
                    }
                    assert forall|x: NodeId| #[trigger] visited.contains(x) <==> (before_visited.contains(x)
                        || g.reachable(start, x)) by {}
                }
            }
            proof {
                assert forall|x: NodeId| #[trigger] visited.contains(x) <==> reached_from_prefix(g, ids, i as int + 1, x) by {
                    if reached_from_prefix(g, ids, i as int + 1, x) {
                        let j = choose|j: int| 0 <= j < i + 1 && #[trigger] g.reachable(ids[j], x);
                        if j < i {
                            assert(reached_from_prefix(g, ids, i as int, x));
                        }
                    }
                    if visited.contains(x) {
                        if before_visited.contains(x) {
                            let j = choose|j: int| 0 <= j < i && #[trigger] g.reachable(ids[j], x);
                            assert(g.reachable(ids[j], x));
                        } else {
                            assert(g.reachable(ids[i as int], x));
                        }
                    }
                }
            }
            i = i + 1;
        }
        proof {
            assert(ids.take(order@.len() as int) =~= ids);
            assert(ids.to_set() =~= g.nodes.dom()) by {
                assert forall|x: NodeId| ids.to_set().contains(x) <==> g.nodes.contains_key(x) by {
                    if g.nodes.contains_key(x) {
                        let a = choose|a: int| 0 <= a < order@.len() && order@[a].0 == x;
                        assert(ids[a] == x);
                    }
                    if ids.to_set().contains(x) {
                        let a = choose|a: int| 0 <= a < ids.len() && ids[a] == x;
                        assert(order@[a].0 == x);
                    }
                }
            }
        }
        count
    }

    /// Undirected cycle rank of the component graph, `E - V + C`: the
    /// number of independent loops. It is never negative (see
    /// `law_rank_nonnegative`).
    pub fn cycle_rank(&self) -> (r: usize)
        requires
            self.wf(),
        ensures
            r == self@.edges.len() + self@.components().len() - self@.nodes.len(),
    {
        let e = self.edge_count();
        let v = self.node_count();
        let c = self.connected_components();
        proof {
            self@.nodes.dom().lemma_map_finite(|n: NodeId| self@.component(n));
            vstd::set_lib::lemma_map_size_bound(
                self@.nodes.dom(),
                self@.components(),
                |n: NodeId| self@.component(n),
            );
            crate::rank::law_rank_nonnegative(self@);
        }
        e - (v - c)
    }

    /// Cutset rank of the component graph: the number of edges in a
    /// spanning forest, `V - C`; with `cycle_rank` it adds up to `E`.
    pub fn cutset_rank(&self) -> (r: usize)
        requires
            self.wf(),
        ensures
            r == self@.nodes.len() - self@.components().len(),
            r <= self@.edges.len(),
    {
        let v = self.node_count();
        let c = self.connected_components();
        proof {
            self@.nodes.dom().lemma_map_finite(|n: NodeId| self@.component(n));
            vstd::set_lib::lemma_map_size_bound(
                self@.nodes.dom(),
                self@.components(),
                |n: NodeId| self@.component(n),
            );
        }
        proof {
            crate::rank::law_rank_nonnegative(self@);
        }
        v - c
    }

    /// Breadth-first search from `start`: the nodes reachable from `start`
    /// whose data `predicate` accepts, each once, in nondecreasing distance
    /// from `start` (so `start` first when it is accepted); nodes at equal
    /// distance come in the order the queue takes them, neighbors in
    /// neighbor order.
    #[verifier::rlimit(100)]
    #[verifier::spinoff_prover]
    pub fn bfs<F: Fn(&N) -> bool>(&self, start: NodeId, predicate: F) -> (found: Vec<NodeId>)
        requires
            self.wf(),
            forall|d: &N| predicate.requires((d,)),
        ensures
            search_found(self@, start, predicate, found@),
            found@.contains(start) ==> found@[0] == start,
            forall|i: int, j: int|
                0 <= i < j < found@.len() ==> no_farther(self@, start, #[trigger] found@[i], #[trigger] found@[j]),
            is_subsequence(found@, bfs_order(self@, start)),
    {
        let ghost g = self@;
        let mut visited: HashSet<u64> = HashSet::new();
        let ghost mut vis: Set<NodeId> = Set::empty();
        let mut found: Vec<NodeId> = Vec::new();
        let mut queue: VecDeque<NodeId> = VecDeque::new();
        queue.push_back(start);
        visited.insert(start.key());
        let ghost mut order: Seq<NodeId> = seq![start];
        let ghost mut h: int = 0;
        let ghost mut fidx: Seq<int> = Seq::empty();
        let ghost u = g.nodes.dom().insert(start);
        proof {
            self.lemma_finite();
            vis = vis.insert(start);
            lemma_joined_refl(g.node_step(), start);
            assert(queue@[0] == start);
            assert(queue@ =~= order.subrange(0, 1));
            assert(order.contains(start)) by { assert(order[0] == start); }
            assert(by_distance(g, start, order)) by {
                reveal(by_distance);
            }
            assert(bfs_order(g, start) =~= order.subrange(0, 0) + bfs_visit(g, queue@, vis, (u.len() - 0) as nat)) by {
                assert(queue@ =~= seq![start]);
                assert(vis =~= set![start]);
            }
        }
        while queue.len() > 0
            invariant
                self.wf(),
                g == self@,
                forall|d: &N| predicate.requires((d,)),
                forall|x: NodeId| visited@.contains(x@) <==> #[trigger] vis.contains(x),
                vis.contains(start),
                vis.subset_of(g.nodes.dom().insert(start)),
                forall|x: NodeId| #[trigger] vis.contains(x) ==> g.reachable(start, x),
                forall|k: int| 0 <= k < queue@.len() ==> vis.contains(#[trigger] queue@[k]),
                queue@.no_duplicates(),
                forall|x: NodeId, m: NodeId|
                    vis.contains(x) && !queue@.contains(x) && #[trigger] g.neighbors(x).contains(m)
                        ==> vis.contains(m),
                found@.no_duplicates(),
                found@.contains(start) ==> found@[0] == start,
                queue@.contains(start) ==> found@.len() == 0 && queue@[0] == start,
                0 <= h <= order.len(),
                order.len() >= 1,
                order[0] == start,
                h == 0 ==> order.len() == 1,
                queue@ == order.subrange(h, order.len() as int),
                forall|x: NodeId| #[trigger] vis.contains(x) <==> order.contains(x),
                by_distance(g, start, order),
                forall|i: int, m: NodeId|
                    0 <= i < h && #[trigger] g.neighbors(order[i]).contains(m) ==> order.contains(m),
                h > 0 ==> forall|i: int, k: nat|
                    0 <= i < order.len() && #[trigger] within(g, start, order[h - 1], k) ==> within(
                        g,
                        start,
                        #[trigger] order[i],
                        k + 1,
                    ),
                fidx.len() == found@.len(),
                forall|a: int| 0 <= a < fidx.len() ==> 0 <= #[trigger] fidx[a] < h && order[fidx[a]] == found@[a],
                forall|a: int, c: int| 0 <= a < c < fidx.len() ==> #[trigger] fidx[a] < #[trigger] fidx[c],
                u == g.nodes.dom().insert(start),
                u.finite(),
                order.no_duplicates(),
                bfs_order(g, start) == order.subrange(0, h) + bfs_visit(g, queue@, vis, (u.len() - h) as nat),
                forall|i: int|
                    0 <= i < found@.len() ==> {
                        let x = #[trigger] found@[i];
                        &&& vis.contains(x)
                        &&& !queue@.contains(x)
                        &&& g.nodes.contains_key(x)
                        &&& predicate.ensures((&g.nodes[x].data,), true)
                    },
                forall|x: NodeId|
                    #[trigger] vis.contains(x) && !queue@.contains(x) && g.nodes.contains_key(x)
                        ==> found@.contains(x) || predicate.ensures((&g.nodes[x].data,), false),
            decreases g.nodes.len() + 1 - vis.len(), queue@.len(),
        {
            let ghost q0 = queue@;
            let n = queue.pop_front().unwrap();
            let ghost h0 = h;
            proof {
                lemma_bfs_pop(g, start, order, h0, q0, vis, u);
                assert(n == order[h]);
                h = h + 1;
                assert(queue@ =~= order.subrange(h, order.len() as int));
                assert(q0.drop_first() =~= queue@);
                assert(order.subrange(0, h) =~= order.subrange(0, h0) + seq![n]);
                assert(q0 =~= seq![n] + queue@);
                assert(!queue@.contains(n)) by {
                    if queue@.contains(n) {
                        let k = choose|k: int| 0 <= k < queue@.len() && queue@[k] == n;
                        assert(q0[k + 1] == q0[0]);
                    }
                }
                assert forall|x: NodeId| #[trigger] queue@.contains(x) implies q0.contains(x) by {
                    let k = choose|k: int| 0 <= k < queue@.len() && queue@[k] == x;
                    assert(q0[k + 1] == x);
                }
                assert(!found@.contains(n)) by {
                    if found@.contains(n) {
                        let i = choose|i: int| 0 <= i < found@.len() && found@[i] == n;
                        assert(!q0.contains(found@[i]));
                        assert(q0[0] == n);
                    }
                }
            }
            let ghost found0 = found@;
            match self.node(n) {
                Some(d) => {
                    if predicate(d) {
                        found.push(n);
                        proof {
                            fidx = fidx.push(h - 1);
                            assert forall|x: NodeId| #[trigger] found@.contains(x) <==> (found0.contains(x) || x == n) by {
                                crate::seqs::lemma_push_contains(found0, n, x);
                            }
                            crate::seqs::lemma_push_no_duplicates(found0, n);
                        }
                    }
                },
                None => {},
            }
            let ns = self.neighbors(n);
            let ghost vis_at_pop = vis;
            let ghost q_at_pop = queue@;
            proof {
                assert(ns@.take(0) =~= Seq::<NodeId>::empty());
            }
            let mut t: usize = 0;
            while t < ns.len()
                invariant
                    self.wf(),
                    g == self@,
                    ns@ == g.neighbors(n),
                    vis.contains(n),
                    t <= ns@.len(),
                    !queue@.contains(n),
                    forall|x: NodeId| visited@.contains(x@) <==> #[trigger] vis.contains(x),
                    vis.contains(start),
                    vis.subset_of(g.nodes.dom().insert(start)),
                    vis.finite(),
                    forall|x: NodeId| #[trigger] vis.contains(x) ==> g.reachable(start, x),
                    forall|k: int| 0 <= k < queue@.len() ==> vis.contains(#[trigger] queue@[k]),
                    queue@.no_duplicates(),
                    forall|x: NodeId, m: NodeId|
                        vis.contains(x) && x != n && !queue@.contains(x) && #[trigger] g.neighbors(x).contains(m)
                            ==> vis.contains(m),
                    forall|k: int| 0 <= k < t ==> vis.contains(#[trigger] ns@[k]),
                    found@.no_duplicates(),
                    found@.contains(start) ==> found@[0] == start,
                    !queue@.contains(start),
                    1 <= h <= order.len(),
                    order[0] == start,
                    order[h - 1] == n,
                    queue@ == order.subrange(h, order.len() as int),
                    forall|x: NodeId| #[trigger] vis.contains(x) <==> order.contains(x),
                    by_distance(g, start, order),
                    forall|i: int, m: NodeId|
                        0 <= i < h - 1 && #[trigger] g.neighbors(order[i]).contains(m) ==> order.contains(m),
                    forall|i: int, k: nat|
                        0 <= i < order.len() && #[trigger] within(g, start, order[h - 1], k) ==> within(
                            g,
                            start,
                            #[trigger] order[i],
                            k + 1,
                        ),
                    fidx.len() == found@.len(),
                    forall|a: int| 0 <= a < fidx.len() ==> 0 <= #[trigger] fidx[a] < h && order[fidx[a]] == found@[a],
                    forall|a: int, c: int| 0 <= a < c < fidx.len() ==> #[trigger] fidx[a] < #[trigger] fidx[c],
                    u == g.nodes.dom().insert(start),
                    u.finite(),
                    order.no_duplicates(),
                    (queue@, vis) == enqueue_new(ns@.take(t as int), q_at_pop, vis_at_pop),
                    bfs_order(g, start) == order.subrange(0, h) + bfs_visit(
                        g,
                        enqueue_new(ns@, q_at_pop, vis_at_pop).0,
                        enqueue_new(ns@, q_at_pop, vis_at_pop).1,
                        (u.len() - h) as nat,
                    ),
                    forall|i: int|
                        0 <= i < found@.len() ==> {
                            let x = #[trigger] found@[i];
                            &&& vis.contains(x)
                            &&& !queue@.contains(x)
                            &&& g.nodes.contains_key(x)
                            &&& predicate.ensures((&g.nodes[x].data,), true)
                        },
                    forall|x: NodeId|
                        #[trigger] vis.contains(x) && !queue@.contains(x) && g.nodes.contains_key(x)
                            ==> found@.contains(x) || predicate.ensures((&g.nodes[x].data,), false),
                    vis_at_pop.finite(),
                    vis_at_pop.len() <= vis.len(),
                    queue@.len() >= q_at_pop.len(),
                    queue@.len() > q_at_pop.len() ==> vis_at_pop.len() < vis.len(),
                decreases ns@.len() - t,
            {
                let m = ns[t];
                proof {
                    assert(ns@.take(t as int + 1).drop_last() =~= ns@.take(t as int));
                    assert(ns@.take(t as int + 1).last() == m);
                    assert(g.neighbors(n).contains(m));
                    lemma_neighbor_live(g, n, m);
                }
                if !visited.contains(&m.key()) {
                    let ghost q1 = queue@;
                    let ghost v1 = vis;
                    visited.insert(m.key());
                    queue.push_back(m);
                    proof {
                        let o1 = order;
                        assert(o1.contains(start)) by { assert(o1[0] == start); }
                        assert(!vis.contains(m));
                        assert(!o1.contains(m));
                        assert forall|i: int| 0 <= i < o1.len() implies no_farther(g, start, o1[i], m) by {
                            assert forall|k: nat| #[trigger] within(g, start, m, k) implies within(g, start, o1[i], k) by {
                                lemma_next_layer(g, start, o1, h - 1, m, k);
                                assert(within(g, start, o1[h - 1], (k - 1) as nat));
                            }
                        }
                        crate::seqs::lemma_push_no_duplicates(o1, m);
                        order = o1.push(m);
                        assert(by_distance(g, start, order)) by {
                            reveal(by_distance);
                            assert forall|i: int, j: int|
                                #![trigger order[i], order[j]]
                                0 <= i < j < order.len() implies no_farther(g, start, order[i], order[j]) by {
                                if j < o1.len() {
                                    assert(order[i] == o1[i] && order[j] == o1[j]);
                                } else {
                                    assert(order[i] == o1[i] && order[j] == m);
                                }
                            }
                        }
                        assert forall|k: nat| #[trigger] within(g, start, order[h - 1], k) implies within(g, start, m, k + 1) by {
                            assert(within(g, start, n, k) && g.neighbors(n).contains(m));
                        }
                        assert forall|x: NodeId| #[trigger] order.contains(x) <==> (o1.contains(x) || x == m) by {
                            crate::seqs::lemma_push_contains(o1, m, x);
                        }
                        vis = vis.insert(m);
                        assert(!q1.contains(m));
                        crate::seqs::lemma_push_no_duplicates(q1, m);
                        assert forall|x: NodeId| #[trigger] queue@.contains(x) <==> (q1.contains(x) || x == m) by {
                            crate::seqs::lemma_push_contains(q1, m, x);
                        }
                        lemma_joined_one_step(g.node_step(), n, m);
                        lemma_joined_trans(g.node_step(), start, n, m);
                        assert(queue@ =~= order.subrange(h, order.len() as int));
                        assert(order.subrange(0, h) =~= o1.subrange(0, h));
                    }
                }
                t = t + 1;
            }
            proof {
                assert(ns@.take(ns@.len() as int) =~= ns@);
                vstd::set_lib::lemma_len_subset(vis, g.nodes.dom().insert(start));
                assert forall|i: int, m: NodeId| 0 <= i < h && #[trigger] g.neighbors(order[i]).contains(m) implies order.contains(m) by {
                    if i == h - 1 {
                        let k = choose|k: int| 0 <= k < ns@.len() && ns@[k] == m;
                        assert(vis.contains(ns@[k]));
                    }
                }
            }
        }
        proof {
            assert forall|x: NodeId| g.reachable(start, x) implies vis.contains(x) by {
                assert forall|u: NodeId, v: NodeId| #[trigger] vis.contains(u) && g.node_step()(u, v)
                    implies #[trigger] vis.contains(v) by {}
                lemma_closed_holds_joined(g.node_step(), vis, start, x);
            }
            assert forall|x: NodeId| g.nodes.contains_key(x) && #[trigger] g.reachable(start, x) implies found@.contains(x)
                || predicate.ensures((&g.nodes[x].data,), false) by {
                assert(vis.contains(x));
                assert(!queue@.contains(x));
            }
            assert forall|i: int, j: int| 0 <= i < j < found@.len() implies no_farther(self@, start, #[trigger] found@[i], #[trigger] found@[j]) by {
                reveal(by_distance);
                assert(fidx[i] < fidx[j]);
                assert(order[fidx[i]] == found@[i] && order[fidx[j]] == found@[j]);
            }
            assert(queue@.len() == 0);
            assert(bfs_visit(g, queue@, vis, (u.len() - h) as nat) =~= Seq::<NodeId>::empty());
            assert(h == order.len());
            assert(bfs_order(g, start) =~= order.subrange(0, h));
            assert forall|k: int| 0 <= k < fidx.len() implies 0 <= #[trigger] fidx[k] < bfs_order(g, start).len()
                && bfs_order(g, start)[fidx[k]] == found@[k] by {}
            assert(fidx.len() == found@.len());
        }
        found
    }

    /// Depth-first search from `start`: the nodes reachable from `start`
    /// whose data `predicate` accepts, each once, `start` first when it is
    /// accepted, the rest in the order they are first taken off the stack
    /// (neighbors are pushed in neighbor order, so the last is taken first).
    pub fn dfs<F: Fn(&N) -> bool>(&self, start: NodeId, predicate: F) -> (found: Vec<NodeId>)
        requires
            self.wf(),
            forall|d: &N| predicate.requires((d,)),
        ensures
            search_found(self@, start, predicate, found@),
            found@.contains(start) ==> found@[0] == start,
            is_subsequence(found@, dfs_order(self@, start)),
    {
        let ghost g = self@;
        let mut visited: HashSet<u64> = HashSet::new();
        let ghost mut vis: Set<NodeId> = Set::empty();
        let mut found: Vec<NodeId> = Vec::new();
        let mut stack: Vec<NodeId> = Vec::new();
        stack.push(start);
        let ghost u = g.nodes.dom().insert(start);
        let ghost mut dorder: Seq<NodeId> = Seq::empty();
        let ghost mut fidx: Seq<int> = Seq::empty();
        proof {
            self.lemma_finite();
            lemma_joined_refl(g.node_step(), start);
            assert(stack@[0] == start);
            assert(stack@ =~= seq![start]);
            assert(dfs_order(g, start) =~= dorder + dfs_visit(g, u, stack@, vis));
        }
        while stack.len() > 0
            invariant
                self.wf(),
                g == self@,
                forall|d: &N| predicate.requires((d,)),
                forall|x: NodeId| visited@.contains(x@) <==> #[trigger] vis.contains(x),
                vis.contains(start) || stack@.contains(start),
                vis.finite(),
                vis.subset_of(g.nodes.dom().insert(start)),
                forall|x: NodeId| #[trigger] vis.contains(x) ==> g.reachable(start, x),
                forall|k: int| 0 <= k < stack@.len() ==> g.reachable(start, #[trigger] stack@[k]),
                forall|k: int| 0 <= k < stack@.len() ==> g.nodes.dom().insert(start).contains(#[trigger] stack@[k]),
                forall|x: NodeId, m: NodeId|
                    vis.contains(x) && #[trigger] g.neighbors(x).contains(m) ==> vis.contains(m) || stack@.contains(m),
                found@.no_duplicates(),
                found@.contains(start) ==> found@[0] == start,
                !vis.contains(start) ==> found@.len() == 0 && stack@ == seq![start],
                forall|i: int|
                    0 <= i < found@.len() ==> {
                        let x = #[trigger] found@[i];
                        &&& vis.contains(x)
                        &&& g.nodes.contains_key(x)
                        &&& predicate.ensures((&g.nodes[x].data,), true)
                    },
                forall|x: NodeId|
                    #[trigger] vis.contains(x) && g.nodes.contains_key(x)
                        ==> found@.contains(x) || predicate.ensures((&g.nodes[x].data,), false),
                u == g.nodes.dom().insert(start),
                u.finite(),
                dfs_order(g, start) == dorder + dfs_visit(g, u, stack@, vis),
                fidx.len() == found@.len(),
                forall|a: int| 0 <= a < fidx.len() ==> 0 <= #[trigger] fidx[a] < dorder.len() && dorder[fidx[a]] == found@[a],
                forall|a: int, c: int| 0 <= a < c < fidx.len() ==> #[trigger] fidx[a] < #[trigger] fidx[c],
            decreases g.nodes.len() + 1 - vis.len(), stack@.len(),
        {
            proof {
                vstd::set_lib::lemma_len_subset(vis, g.nodes.dom().insert(start));
            }
            let ghost s0 = stack@;
            let n = stack.pop().unwrap();
            proof {
                assert(s0.drop_last() =~= stack@);
                assert(s0.last() == n);
                assert(s0 =~= stack@.push(n));
                assert forall|x: NodeId| #[trigger] s0.contains(x) <==> (stack@.contains(x) || x == n) by {
                    crate::seqs::lemma_push_contains(stack@, n, x);
                }
                assert(g.reachable(start, s0[s0.len() - 1]));
                assert(g.nodes.dom().insert(start).contains(s0[s0.len() - 1]));
            }
            if !visited.contains(&n.key()) {
                visited.insert(n.key());
                let ghost v0 = vis;
                let ghost d0 = dorder;
                proof {
                    dorder = dorder.push(n);
                    assert(s0.len() > 0 && s0.last() == n && !v0.contains(n));
                    lemma_dfs_step(g, u, s0, v0);
                    assert(dfs_visit(g, u, s0, v0) == seq![n] + dfs_visit(
                        g,
                        u,
                        s0.drop_last() + g.neighbors(n).filter(unseen(v0.insert(n))),
                        v0.insert(n),
                    ));
                    assert(d0 + (seq![n] + dfs_visit(
                        g,
                        u,
                        s0.drop_last() + g.neighbors(n).filter(unseen(v0.insert(n))),
                        v0.insert(n),
                    )) =~= dorder + dfs_visit(
                        g,
                        u,
                        s0.drop_last() + g.neighbors(n).filter(unseen(v0.insert(n))),
                        v0.insert(n),
                    ));
                    vis = vis.insert(n);
                    assert(!found@.contains(n)) by {
                        if found@.contains(n) {
                            let i = choose|i: int| 0 <= i < found@.len() && found@[i] == n;
                            assert(v0.contains(found@[i]));
                        }
                    }
                    assert(vis.len() == v0.len() + 1);
                }
                let ghost found0 = found@;
                match self.node(n) {
                    Some(d) => {
                        if predicate(d) {
                            found.push(n);
                            proof {
                                fidx = fidx.push(d0.len() as int);
                                assert forall|x: NodeId| #[trigger] found@.contains(x) <==> (found0.contains(x) || x == n) by {
                                    crate::seqs::lemma_push_contains(found0, n, x);
                                }
                                crate::seqs::lemma_push_no_duplicates(found0, n);
                            }
                        }
                    },
                    None => {},
                }
                let ns = self.neighbors(n);
                let ghost s_at_pop = stack@;
                proof {
                    assert(ns@.take(0).filter(unseen(vis)) =~= Seq::<NodeId>::empty()) by {
                        assert(ns@.take(0) =~= Seq::<NodeId>::empty());
                    }
                    assert(stack@ =~= s_at_pop + ns@.take(0).filter(unseen(vis)));
                }
                let mut t: usize = 0;
                while t < ns.len()
                    invariant
                        self.wf(),
                        g == self@,
                        ns@ == g.neighbors(n),
                        vis.contains(n),
                        t <= ns@.len(),
                        g.reachable(start, n),
                        forall|x: NodeId| visited@.contains(x@) <==> #[trigger] vis.contains(x),
                        vis.contains(start) || stack@.contains(start),
                        forall|k: int| 0 <= k < s_at_pop.len() ==> stack@[k] == s_at_pop[k],
                        stack@.len() >= s_at_pop.len(),
                        forall|k: int| 0 <= k < stack@.len() ==> g.reachable(start, #[trigger] stack@[k]),
                        forall|k: int| 0 <= k < stack@.len() ==> g.nodes.dom().insert(start).contains(#[trigger] stack@[k]),
                        forall|x: NodeId, m: NodeId|
                            vis.contains(x) && x != n && #[trigger] g.neighbors(x).contains(m) ==> vis.contains(m)
                                || stack@.contains(m),
                        forall|k: int| 0 <= k < t ==> vis.contains(#[trigger] ns@[k]) || stack@.contains(ns@[k]),
                        stack@ == s_at_pop + ns@.take(t as int).filter(unseen(vis)),
                    decreases ns@.len() - t,
                {
                    let m = ns[t];
                    proof {
                        assert(g.neighbors(n).contains(m));
                        lemma_neighbor_live(g, n, m);
                        assert(ns@.take(t as int + 1) =~= ns@.take(t as int).push(m));
                        ns@.take(t as int).lemma_filter_push(m, unseen(vis));
                    }
                    if !visited.contains(&m.key()) {
                        let ghost s1 = stack@;
                        stack.push(m);
                        proof {
                            assert forall|x: NodeId| #[trigger] stack@.contains(x) <==> (s1.contains(x) || x == m) by {
                                crate::seqs::lemma_push_contains(s1, m, x);
                            }
                            lemma_joined_one_step(g.node_step(), n, m);
                            lemma_joined_trans(g.node_step(), start, n, m);
                        }
                    }
                    t = t + 1;
                }
                proof {
                    assert(ns@.take(ns@.len() as int) =~= ns@);
                    assert forall|x: NodeId, m: NodeId|
                        vis.contains(x) && #[trigger] g.neighbors(x).contains(m) implies vis.contains(m)
                            || stack@.contains(m) by {
                        if x == n {
                            let k = choose|k: int| 0 <= k < ns@.len() && ns@[k] == m;
                            assert(vis.contains(ns@[k]) || stack@.contains(ns@[k]));
                        }
                    }
                }
                proof {
                    vstd::set_lib::lemma_len_subset(vis, g.nodes.dom().insert(start));
                }
            }
        }
        proof {
            assert(dfs_visit(g, u, stack@, vis) =~= Seq::<NodeId>::empty());
            assert(dfs_order(g, start) =~= dorder);
            assert(fidx.len() == found@.len());
            assert(vis.contains(start));
            assert forall|x: NodeId| g.reachable(start, x) implies vis.contains(x) by {
                assert forall|u: NodeId, v: NodeId| #[trigger] vis.contains(u) && g.node_step()(u, v)
                    implies #[trigger] vis.contains(v) by {}
                lemma_closed_holds_joined(g.node_step(), vis, start, x);
            }
            assert forall|x: NodeId| g.nodes.contains_key(x) && #[trigger] g.reachable(start, x) implies found@.contains(x)
                || predicate.ensures((&g.nodes[x].data,), false) by {
                assert(vis.contains(x));
            }
        }
        found
    }
}

} // verus!
