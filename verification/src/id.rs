//! Stable, copyable identifiers for graph elements.
//!
//! Each identifier holds the 64-bit form of a generational slot-map key: the
//! low 32 bits are the slot index and the high 32 bits the slot version,
//! which is odd for every key that was issued. A graph never issues the same
//! identifier twice: see `Graph::issued_nodes` and its kin, and the bound
//! `ISSUE_LIMIT` below which no slot's version wraps around.

use crate::slots::is_issued_shape;
use vstd::prelude::*;

verus! {

/// Identifies a node (component).
#[derive(Clone, Copy, PartialEq, Eq, Structural, Hash, PartialOrd, Ord, Debug)]
pub struct NodeId {
    key: u64,
}

impl NodeId {
    /// Every identifier holds the 64-bit form of an issued key.
    #[verifier::type_invariant]
    spec fn key_is_issued(self) -> bool {
        is_issued_shape(self.key)
    }

    /// The identifier whose 64-bit form is `key`.
    pub closed spec fn node_id_of(key: u64) -> NodeId {
        NodeId { key }
    }

    /// Wraps an issued key.
    pub(crate) fn from_key(key: u64) -> (id: NodeId)
        requires
            is_issued_shape(key),
        ensures
            id@ == key,
            id == NodeId::node_id_of(key),
    {
        NodeId { key }
    }

    /// The 64-bit form of this identifier's key.
    pub(crate) fn key(&self) -> (key: u64)
        ensures
            key == self@,
            is_issued_shape(key),
    {
        proof {
            use_type_invariant(self);
        }
        self.key
    }
}

impl View for NodeId {
    type V = u64;

    closed spec fn view(&self) -> u64 {
        self.key
    }
}

/// An identifier is determined by its 64-bit form.
pub broadcast proof fn lemma_node_id_view(id: NodeId)
    ensures
        #[trigger] NodeId::node_id_of(id@) == id,
{
}

/// The 64-bit form of the identifier made from a key is that key.
pub broadcast proof fn lemma_node_id_of(key: u64)
    ensures
        #[trigger] NodeId::node_id_of(key)@ == key,
{
}

/// Two identifiers with the same 64-bit form are the same identifier.
pub broadcast proof fn lemma_node_id_view_injective(a: NodeId, b: NodeId)
    ensures
        #[trigger] a@ == #[trigger] b@ <==> a == b,
{
}

/// Identifies a port. Ports are owned by exactly one node.
#[derive(Clone, Copy, PartialEq, Eq, Structural, Hash, PartialOrd, Ord, Debug)]
pub struct PortId {
    key: u64,
}

impl PortId {
    /// Every identifier holds the 64-bit form of an issued key.
    #[verifier::type_invariant]
    spec fn key_is_issued(self) -> bool {
        is_issued_shape(self.key)
    }

    /// The identifier whose 64-bit form is `key`.
    pub closed spec fn port_id_of(key: u64) -> PortId {
        PortId { key }
    }

    /// Wraps an issued key.
    pub(crate) fn from_key(key: u64) -> (id: PortId)
        requires
            is_issued_shape(key),
        ensures
            id@ == key,
            id == PortId::port_id_of(key),
    {
        PortId { key }
    }

    /// The 64-bit form of this identifier's key.
    pub(crate) fn key(&self) -> (key: u64)
        ensures
            key == self@,
            is_issued_shape(key),
    {
        proof {
            use_type_invariant(self);
        }
        self.key
    }
}

impl View for PortId {
    type V = u64;

    closed spec fn view(&self) -> u64 {
        self.key
    }
}

/// An identifier is determined by its 64-bit form.
pub broadcast proof fn lemma_port_id_view(id: PortId)
    ensures
        #[trigger] PortId::port_id_of(id@) == id,
{
}

/// The 64-bit form of the identifier made from a key is that key.
pub broadcast proof fn lemma_port_id_of(key: u64)
    ensures
        #[trigger] PortId::port_id_of(key)@ == key,
{
}

/// Two identifiers with the same 64-bit form are the same identifier.
pub broadcast proof fn lemma_port_id_view_injective(a: PortId, b: PortId)
    ensures
        #[trigger] a@ == #[trigger] b@ <==> a == b,
{
}

/// Identifies an edge between two ports.
#[derive(Clone, Copy, PartialEq, Eq, Structural, Hash, PartialOrd, Ord, Debug)]
pub struct EdgeId {
    key: u64,
}

impl EdgeId {
    /// Every identifier holds the 64-bit form of an issued key.
    #[verifier::type_invariant]
    spec fn key_is_issued(self) -> bool {
        is_issued_shape(self.key)
    }

    /// The identifier whose 64-bit form is `key`.
    pub closed spec fn edge_id_of(key: u64) -> EdgeId {
        EdgeId { key }
    }

    /// Wraps an issued key.
    pub(crate) fn from_key(key: u64) -> (id: EdgeId)
        requires
            is_issued_shape(key),
        ensures
            id@ == key,
            id == EdgeId::edge_id_of(key),
    {
        EdgeId { key }
    }

    /// The 64-bit form of this identifier's key.
    pub(crate) fn key(&self) -> (key: u64)
        ensures
            key == self@,
            is_issued_shape(key),
    {
        proof {
            use_type_invariant(self);
        }
        self.key
    }
}

impl View for EdgeId {
    type V = u64;

    closed spec fn view(&self) -> u64 {
        self.key
    }
}

/// An identifier is determined by its 64-bit form.
pub broadcast proof fn lemma_edge_id_view(id: EdgeId)
    ensures
        #[trigger] EdgeId::edge_id_of(id@) == id,
{
}

/// The 64-bit form of the identifier made from a key is that key.
pub broadcast proof fn lemma_edge_id_of(key: u64)
    ensures
        #[trigger] EdgeId::edge_id_of(key)@ == key,
{
}

/// Two identifiers with the same 64-bit form are the same identifier.
pub broadcast proof fn lemma_edge_id_view_injective(a: EdgeId, b: EdgeId)
    ensures
        #[trigger] a@ == #[trigger] b@ <==> a == b,
{
}

pub broadcast group group_id_lemmas {
    lemma_node_id_view,
    lemma_node_id_of,
    lemma_node_id_view_injective,
    lemma_port_id_view,
    lemma_port_id_of,
    lemma_port_id_view_injective,
    lemma_edge_id_view,
    lemma_edge_id_of,
    lemma_edge_id_view_injective,
}

} // verus!
