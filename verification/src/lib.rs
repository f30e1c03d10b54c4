//! A directed graph of audio nodes for real-time processing.
//!
//! The engine schedules the nodes of an acyclic graph and drives them once per audio cycle. All
//! that takes time or memory happens before: [`Graph::compile`] orders the nodes, rejects cycles
//! and allocates a frame for every port, so that [`Graph::process_cycle`] only copies between
//! frames of fixed size and calls the nodes.
//!
//! 1. Build: add nodes with [`Graph::add_node`] and sinks with [`Graph::add_sink`], and wire output
//!    ports to input ports with [`Graph::link`].
//! 2. Compile with [`Graph::compile`].
//! 3. Run [`Graph::process_cycle`] once per cycle; seed outputs with [`Graph::feed`], read results
//!    with [`Graph::read_output`] and [`Graph::read_input`], and ship what the sinks hold with
//!    [`Graph::flush_sinks`].
//!
//! Around the engine stand [`RingSource`] and [`RingSink`], which bridge to worker threads;
//! [`TopologySnapshot`] and its edits, which describe graphs as plain data; [`PartitionHint`] and
//! [`GraphPartition`], for graphs that are spread over several hosts; and [`RtHandle`], which
//! replaces a running graph.
//!
//! What the functions promise is stated in their contracts over the views of the types; what holds
//! across functions and cycles is stated and proved in [`laws`], in [`meaning`] and beside the models
//! that it is about.

use vstd::prelude::*;

pub mod cycle;
pub mod distributed;
pub mod error;
pub mod events;
pub mod flush;
pub mod frame;
pub mod graph;
pub mod hot_reload;
pub mod keyed;
pub mod laws;
pub mod meaning;
pub mod node;
pub mod port;
pub mod ring;
pub mod text;
pub mod topology;
pub mod topology_pub;
pub mod turnstile;

pub use distributed::{
    BoundaryPort, GraphPartition, NetworkLinkNode, PartitionHint, PortKind, RemoteNode,
    TransportHint,
};
pub use error::GraphError;
pub use flush::{FlushError, Flushable, SinkNode};
pub use frame::AudioFrame;
pub use graph::{Graph, GraphConfig, LinkId, NodeId, PortIdx};
pub use hot_reload::{InstalledGraph, RtHandle};
pub use node::{AudioNode, ProcessContext};
pub use port::{PortDescriptor, PortDirection, SampleFormat};
pub use ring::{new_ring, PushError, RingSink, RingSource};
pub use topology::{topological_sort, Edge};
pub use topology_pub::{
    Mutation, NodeSnapshot, PortDir, PortMeta, SampleFmt, SnapshotEdge, SnapshotSource,
    TopologyEvent, TopologyObserver, TopologySnapshot,
};

verus! {

} // verus!
