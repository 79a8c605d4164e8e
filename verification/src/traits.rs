//! The interfaces of a graph whose elements each carry one datum: a
//! container of a datum, and graphs, nodes, ports and edges built on it.

use crate::index::{EdgeIndex, NodeIndex, PortIndex};
use vstd::prelude::*;

verus! {

/// An element that holds one datum of type `T`.
pub trait DataContainer<T: Clone> {
    /// A copy of the datum.
    fn get_data(&self) -> T;

    /// The datum itself.
    fn get_data_by_ref(&self) -> &T;

    /// Replaces the datum.
    fn set_data(&mut self, data: T);
}

/// A graph that holds a datum of its own and nodes, ports and edges with
/// data of their own.
pub trait GraphLike<DG, DN, DP, DE>: DataContainer<DG> where DG: Clone, DN: Clone, DP: Clone, DE: Clone {
    /// Adds a node and returns its index.
    fn add_node(&mut self, node: impl NodeLike<DN, DP>) -> NodeIndex;

    /// The kind of node that `remove_node` hands back.
    type RemovedNode: NodeLike<DN, DP>;

    /// Takes the node with index `node_idx` out of the graph.
    fn remove_node(&mut self, node_idx: NodeIndex) -> Self::RemovedNode;

    /// Joins two ports by a new edge and returns its index.
    fn connect_ports(&mut self, origin_port_idx: PortIndex, terminus_port_indes: PortIndex) -> EdgeIndex;
}

/// A node that holds a datum and owns ports.
pub trait NodeLike<DN, DP>: DataContainer<DN> where DN: Clone, DP: Clone {
    /// Adds a port and returns its index.
    fn add_port(&mut self, port: impl PortLike<DP>) -> PortIndex;
}

/// A port that holds a datum.
pub trait PortLike<DP: Clone>: DataContainer<DP> {

}

/// An edge that holds a datum and runs from an origin port to a terminus
/// port.
pub trait EdgeLike<DE: Clone>: DataContainer<DE> {
    /// Sets the port the edge starts at.
    fn connect_origin(&mut self, origin_port_idx: PortIndex);

    /// Sets the port the edge ends at.
    fn connect_terminus(&mut self, terminus_port_idx: PortIndex);
}

} // verus!
