//! A node–port–edge graph for engineering schematics.
//!
//! A node is a component, a port is a connection point owned by exactly one
//! node, and an edge joins two ports. Every element carries user data and is
//! addressed by a stable, copyable identifier.

pub mod id;
pub mod slots;
pub mod model;
pub mod seqs;
pub mod walks;
pub mod union_find;
pub mod graph;
pub mod net;
pub mod traversal;
pub mod cycle;
pub mod library;
pub mod index;
pub mod traitless;
pub mod traits;
pub mod laws;
pub mod rank;
pub mod persist;
pub mod interop;

pub use cycle::{ClosedCycle, Link, LinkError, OpenCycle, Step};
pub use graph::{ConnectError, Graph, NodeMissing};
pub use id::{EdgeId, NodeId, PortId};
pub use library::{NodeProto, NodeTemplate};
pub use net::Net;
pub use persist::GraphParts;
