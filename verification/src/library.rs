//! Component libraries: a component's data and pinout, defined once and
//! stamped into a graph many times.

use crate::graph::Graph;
use crate::slots::ISSUE_LIMIT;
use crate::id::{NodeId, PortId};
use crate::model::GraphView;
use vstd::prelude::*;

verus! {

broadcast use crate::id::group_id_lemmas;

/// A reusable component definition: node data plus an ordered pinout.
/// Callers implement it; a palette may hold `Box<dyn NodeTemplate<N, P>>`.
pub trait NodeTemplate<N, P> {
    /// Fresh node data for one instance of this component.
    fn node_data(&self) -> N;

    /// Fresh port data for one instance, in pinout order; the ports that
    /// [`Graph::instantiate`] returns follow this order, index for index.
    fn port_data(&self) -> Vec<P>;
}

/// A plain blueprint: node data and port data, stamped by cloning.
#[derive(Debug, Clone)]
pub struct NodeProto<N, P> {
    /// Data for the node itself.
    pub data: N,
    /// Port data in pinout order.
    pub ports: Vec<P>,
}

impl<N: Clone, P: Clone> NodeTemplate<N, P> for NodeProto<N, P> {
    fn node_data(&self) -> (d: N)
        ensures
            cloned(self.data, d),
    {
        self.data.clone()
    }

    fn port_data(&self) -> (ps: Vec<P>)
        ensures
            ps@.len() == self.ports@.len(),
            forall|i: int| 0 <= i < ps@.len() ==> cloned(self.ports@[i], #[trigger] ps@[i]),
    {
        self.ports.clone()
    }
}

/// Graph `g` after giving node `n` the ports `ids` with data `data`, in
/// order.
pub open spec fn stamp_ports<N, P, E>(g: GraphView<N, P, E>, n: NodeId, ids: Seq<PortId>, data: Seq<P>) -> GraphView<
    N,
    P,
    E,
>
    decreases ids.len(),
{
    if ids.len() == 0 {
        g
    } else {
        stamp_ports(g, n, ids.drop_last(), data.take(ids.len() - 1)).insert_port(
            n,
            ids.last(),
            data[ids.len() - 1],
        )
    }
}

impl<N, P, E> Graph<N, P, E> {
    /// Adds a node with `data`, then one port per entry of `ports`, in order.
    /// Returns the node and its new ports, `ports[i]` for port data `i`.
    pub fn instantiate_parts(&mut self, data: N, ports: Vec<P>) -> (r: (NodeId, Vec<PortId>))
        requires
            old(self).wf(),
            old(self).issued_node_count() < ISSUE_LIMIT,
            old(self).issued_port_count() + ports@.len() <= ISSUE_LIMIT,
        ensures
            final(self).wf(),
            !old(self)@.nodes.contains_key(r.0),
            !old(self).issued_nodes().contains(r.0),
            forall|i: int| 0 <= i < r.1@.len() ==> !old(self).issued_ports().contains(#[trigger] r.1@[i]),
            r.1@.len() == ports@.len(),
            r.1@.no_duplicates(),
            forall|i: int| 0 <= i < r.1@.len() ==> !old(self)@.ports.contains_key(#[trigger] r.1@[i]),
            final(self)@ == stamp_ports(old(self)@.insert_node(r.0, data), r.0, r.1@, ports@),
    {
        proof {
            self.lemma_finite();
        }
        let ghost g0 = self@;
        let ghost all = ports@;
        let ghost ip0 = self.issued_ports();
        let ghost ipc0 = self.issued_port_count();
        let node = self.add_node(data);
        let ghost g1 = self@;
        let mut ids: Vec<PortId> = Vec::new();
        proof {
            assert(all.take(0) =~= Seq::<P>::empty());
        }
        for p in it: ports.into_iter()
            invariant
                self.wf(),
                it.seq() == all,
                ids@.len() == it.index(),
                g0.ports.dom().finite(),
                ipc0 + all.len() <= ISSUE_LIMIT,
                self.issued_port_count() == ipc0 + ids@.len(),
                forall|x: PortId| #[trigger] ip0.contains(x) ==> self.issued_ports().contains(x),
                forall|i: int| 0 <= i < ids@.len() ==> !ip0.contains(#[trigger] ids@[i]),
                !g0.nodes.contains_key(node),
                g1 == g0.insert_node(node, data),
                self@ == stamp_ports(g1, node, ids@, all.take(ids@.len() as int)),
                self@.nodes.contains_key(node),
                self@.ports.len() == g0.ports.len() + ids@.len(),
                ids@.no_duplicates(),
                forall|i: int| 0 <= i < ids@.len() ==> !g0.ports.contains_key(#[trigger] ids@[i]),
                forall|i: int| 0 <= i < ids@.len() ==> self@.ports.contains_key(#[trigger] ids@[i]),
                forall|x: PortId| #[trigger] g0.ports.contains_key(x) ==> self@.ports.contains_key(x),
        {
            proof {
                self.lemma_finite();
            }
            let ghost before = self@;
            let ghost before_issued = self.issued_ports();
            let ghost ids0 = ids@;
            let q = match self.add_port(node, p) {
                Ok(q) => q,
                Err(_) => {
                    proof {
                        assert(false);
                    }
                    return (node, ids);
                },
            };
            ids.push(q);
            proof {
                assert(!before.ports.contains_key(q));
                assert(!g0.ports.contains_key(q));
                assert(!ip0.contains(q)) by {
                    if ip0.contains(q) {
                        assert(before_issued.contains(q));
                    }
                }
                assert forall|i: int| 0 <= i < ids0.len() implies ids0[i] != q by {
                    assert(before.ports.contains_key(ids0[i]));
                }
                crate::seqs::lemma_push_no_duplicates(ids0, q);
                assert(ids@.drop_last() =~= ids0);
                assert(all.take(ids@.len() as int).take(ids0.len() as int) =~= all.take(ids0.len() as int));
                assert(all.take(ids@.len() as int)[ids0.len() as int] == p);
                assert(self@ == stamp_ports(g1, node, ids@, all.take(ids@.len() as int)));
                assert(before.ports.dom().finite());
                assert(self@.ports.dom() =~= before.ports.dom().insert(q));
            }
        }
        proof {
            assert(all.take(ids@.len() as int) =~= all);
        }
        (node, ids)
    }

    /// Stamps one instance of `template` into the graph: a node with its
    /// node data, then its ports in pinout order. Returns the node and its
    /// ports, where `ports[i]` carries `template.port_data()[i]`. Accepts a
    /// `&dyn NodeTemplate<N, P>` as well as a concrete template.
    pub fn instantiate<T: NodeTemplate<N, P> + ?Sized>(&mut self, template: &T) -> (r: (NodeId, Vec<PortId>))
        requires
            old(self).wf(),
            old(self).issued_node_count() < ISSUE_LIMIT,
            forall|ps: Vec<P>| #[trigger] call_ensures(T::port_data, (template,), ps)
                ==> old(self).issued_port_count() + ps@.len() <= ISSUE_LIMIT,
        ensures
            final(self).wf(),
            !old(self)@.nodes.contains_key(r.0),
            !old(self).issued_nodes().contains(r.0),
            forall|i: int| 0 <= i < r.1@.len() ==> !old(self).issued_ports().contains(#[trigger] r.1@[i]),
            r.1@.no_duplicates(),
            forall|i: int| 0 <= i < r.1@.len() ==> !old(self)@.ports.contains_key(#[trigger] r.1@[i]),
            exists|d: N, ps: Vec<P>|
                #![trigger call_ensures(T::node_data, (template,), d), call_ensures(T::port_data, (template,), ps)]
                {
                    &&& call_ensures(T::node_data, (template,), d)
                    &&& call_ensures(T::port_data, (template,), ps)
                    &&& r.1@.len() == ps@.len()
                    &&& final(self)@ == stamp_ports(old(self)@.insert_node(r.0, d), r.0, r.1@, ps@)
                },
    {
        let d = template.node_data();
        let ps = template.port_data();
        let ghost dg = d;
        let ghost psg = ps;
        let r = self.instantiate_parts(d, ps);
        proof {
            assert(call_ensures(T::node_data, (template,), dg));
            assert(call_ensures(T::port_data, (template,), psg));
        }
        r
    }

    /// Stamps one instance of `template`, as [`Graph::instantiate`] does,
    /// when the graph can still issue the identifiers it takes: one node,
    /// and one port per entry of the pinout. Otherwise it returns `None` and
    /// leaves the graph as it was.
    pub fn try_instantiate<T: NodeTemplate<N, P> + ?Sized>(&mut self, template: &T) -> (r: Option<(NodeId, Vec<PortId>)>)
        requires
            old(self).wf(),
        ensures
            final(self).wf(),
            match r {
                Some(x) => {
                    &&& old(self).issued_node_count() < ISSUE_LIMIT
                    &&& !old(self)@.nodes.contains_key(x.0)
                    &&& !old(self).issued_nodes().contains(x.0)
                    &&& forall|i: int| 0 <= i < x.1@.len() ==> !old(self).issued_ports().contains(#[trigger] x.1@[i])
                    &&& x.1@.no_duplicates()
                    &&& forall|i: int| 0 <= i < x.1@.len() ==> !old(self)@.ports.contains_key(#[trigger] x.1@[i])
                    &&& exists|d: N, ps: Vec<P>|
                        #![trigger call_ensures(T::node_data, (template,), d), call_ensures(T::port_data, (template,), ps)]
                        {
                            &&& call_ensures(T::node_data, (template,), d)
                            &&& call_ensures(T::port_data, (template,), ps)
                            &&& old(self).issued_port_count() + ps@.len() <= ISSUE_LIMIT
                            &&& x.1@.len() == ps@.len()
                            &&& final(self)@ == stamp_ports(old(self)@.insert_node(x.0, d), x.0, x.1@, ps@)
                        }
                },
                None => {
                    &&& final(self)@ == old(self)@
                    &&& final(self).same_issued(*old(self))
                    &&& old(self).issued_node_count() < ISSUE_LIMIT ==> exists|ps: Vec<P>|
                        #[trigger] call_ensures(T::port_data, (template,), ps)
                            && old(self).issued_port_count() + ps@.len() > ISSUE_LIMIT
                },
            },
    {
        if self.node_ids_issued() >= ISSUE_LIMIT {
            return None;
        }
        let d = template.node_data();
        let ps = template.port_data();
        if ps.len() > ISSUE_LIMIT - self.port_ids_issued() {
            proof {
                assert(call_ensures(T::port_data, (template,), ps));
            }
            return None;
        }
        let ghost dg = d;
        let ghost psg = ps;
        let r = self.instantiate_parts(d, ps);
        proof {
            assert(call_ensures(T::node_data, (template,), dg));
            assert(call_ensures(T::port_data, (template,), psg));
        }
        Some(r)
    }
}

} // verus!
