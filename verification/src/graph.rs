//! The graph engine: nodes, the links between their ports, and the pre-allocated frames through
//! which audio moves from node to node.

use crate::cycle::CycleState;
use crate::error::GraphError;
use crate::events::SubscriberView;
use crate::flush::{FlushError, SinkNode};
use crate::frame::{AudioFrame, FrameView};
use crate::node::{AudioNode, Exchange, NodeModel, ProcessContext};
use crate::port::{PortDescriptor, PortDirection};
use crate::topology::{topological_sort, Edge};
use crate::topology_pub::{
    EventView, NodeSnapshot, NodeSnapshotView, PortDir, PortMeta, SnapshotEdge, SnapshotSource,
    SnapshotView, TopologyEvent, TopologySnapshot,
};
use std::sync::mpsc::{Receiver, Sender};
use vstd::prelude::*;

verus! {

/// Identifier of a node within a [`Graph`]. Stable for the lifetime of the graph.
pub type NodeId = usize;

/// Index of a port on a node, in the order in which the node reports its ports.
pub type PortIdx = usize;

/// Identifier of a link returned by [`Graph::link`]: its position in insertion order.
pub type LinkId = usize;

/// Configuration that fixes the size of every frame when a graph is compiled.
#[derive(Debug, Clone, Copy, PartialEq, Eq, Structural)]
pub struct GraphConfig {
    /// Number of audio frames processed per cycle and channel.
    pub num_frames: usize,
    /// Sample rate in Hz.
    pub sample_rate: u32,
    /// Channel count carried by every port.
    pub channels: u16,
}

impl GraphConfig {
    /// Creates a configuration from its raw fields.
    #[must_use]
    pub fn new(num_frames: usize, sample_rate: u32, channels: u16) -> (r: Self)
        ensures
            r == (GraphConfig { num_frames, sample_rate, channels }),
    {
        GraphConfig { num_frames, sample_rate, channels }
    }
}

/// A place in the graph for a node: one that is only processed, or one that is also flushed.
pub enum Slot<P, S> {
    /// A node that is only processed.
    Plain(P),
    /// A sink, which is flushed between cycles.
    Sink(S),
}

/// A node of a graph.
pub type NodeSlot = Slot<Box<dyn AudioNode>, Box<dyn SinkNode>>;

/// The model of the node in a slot.
pub open spec fn slot_model(slot: NodeSlot) -> NodeModel {
    match slot {
        Slot::Plain(node) => node.model(),
        Slot::Sink(sink) => sink.sink_model(),
    }
}

impl NodeSlot {
    /// The input ports of the node.
    fn inputs(&self) -> (r: &[PortDescriptor])
        ensures
            r@ == slot_model(*self).inputs,
    {
        match self {
            Slot::Plain(node) => node.inputs(),
            Slot::Sink(sink) => sink.sink_inputs(),
        }
    }

    /// The output ports of the node.
    fn outputs(&self) -> (r: &[PortDescriptor])
        ensures
            r@ == slot_model(*self).outputs,
    {
        match self {
            Slot::Plain(node) => node.outputs(),
            Slot::Sink(sink) => sink.sink_outputs(),
        }
    }

    /// Lets the node process one cycle.
    fn process(
        &mut self,
        ctx: &mut ProcessContext,
        in_frames: &[AudioFrame],
        out_frames: &mut [AudioFrame],
    )
        ensures
            *final(self) is Sink <==> *old(self) is Sink,
            crate::node::may_process(
                slot_model(*old(self)),
                (Exchange {
                    ctx: *old(ctx),
                    ins: crate::frame::frame_views(in_frames@),
                    outs: crate::frame::frame_views(old(out_frames)@),
                    ctx_after: *final(ctx),
                    outs_after: crate::frame::frame_views(final(out_frames)@),
                }),
                slot_model(*final(self)),
            ),
    {
        match self {
            Slot::Plain(node) => node.process(ctx, in_frames, out_frames),
            Slot::Sink(sink) => sink.sink_process(ctx, in_frames, out_frames),
        }
    }

    /// Flushes the node if it is a sink.
    fn flush(&mut self) -> (r: Option<Result<(), FlushError>>)
        ensures
            r is Some <==> *old(self) is Sink,
            *final(self) is Sink <==> *old(self) is Sink,
            match r {
                Some(result) => crate::node::may_flush(
                    slot_model(*old(self)),
                    result,
                    slot_model(*final(self)),
                ),
                None => slot_model(*final(self)) == slot_model(*old(self)),
            },
    {
        match self {
            Slot::Plain(_) => None,
            Slot::Sink(sink) => Some(sink.sink_flush()),
        }
    }
}

/// A directed acyclic graph of audio nodes.
///
/// A graph moves through three phases.
///
/// 1. Build: [`Graph::add_node`] and [`Graph::add_sink`] register nodes, and [`Graph::link`] wires
///    output ports to input ports.
/// 2. Compile: [`Graph::compile`] orders the nodes, rejects cycles and allocates every frame.
/// 3. Run: [`Graph::process_cycle`] runs one cycle on the real-time thread, without allocating,
///    locking or panicking. [`Graph::feed`] seeds outputs before a cycle,
///    [`Graph::read_output`] and [`Graph::read_input`] tap results after it, and
///    [`Graph::flush_sinks`] ships what the sinks hold, off the real-time thread.
pub struct Graph {
    nodes: Vec<NodeSlot>,
    edges: Vec<Edge>,
    execution_order: Vec<NodeId>,
    config: GraphConfig,
    compiled: bool,
    input_slots: Vec<Vec<AudioFrame>>,
    output_slots: Vec<Vec<AudioFrame>>,
    subscribers: Vec<Sender<TopologyEvent>>,
}

/// The contents of a [`Graph`].
#[verifier::ext_equal]
pub struct GraphView {
    /// The nodes, by id.
    pub nodes: Seq<NodeModel>,
    /// Which nodes are sinks, by id.
    pub sinks: Seq<bool>,
    /// The links, in the order in which they were added.
    pub edges: Seq<Edge>,
    /// The order in which the nodes are processed.
    pub order: Seq<NodeId>,
    /// The configuration that the graph was compiled with.
    pub config: GraphConfig,
    /// Whether the graph is compiled.
    pub compiled: bool,
    /// The frames at the input ports, by node and port.
    pub inputs: Seq<Seq<FrameView>>,
    /// The frames at the output ports, by node and port.
    pub outputs: Seq<Seq<FrameView>>,
    /// Those who are told of changes of the topology.
    pub subscribers: Seq<SubscriberView>,
}

/// The frames of a list of lists.
pub open spec fn slot_views(slots: Seq<Vec<AudioFrame>>) -> Seq<Seq<FrameView>> {
    Seq::new(slots.len(), |i: int| crate::frame::frame_views(slots[i]@))
}

impl View for Graph {
    type V = GraphView;

    closed spec fn view(&self) -> GraphView {
        GraphView {
            nodes: Seq::new(self.nodes@.len(), |i: int| slot_model(self.nodes@[i])),
            sinks: Seq::new(self.nodes@.len(), |i: int| self.nodes@[i] is Sink),
            edges: self.edges@,
            order: self.execution_order@,
            config: self.config,
            compiled: self.compiled,
            inputs: slot_views(self.input_slots@),
            outputs: slot_views(self.output_slots@),
            subscribers: crate::events::subscriber_views(self.subscribers@),
        }
    }
}

impl GraphView {
    /// Every node has a sink mark, a list of input slots and one of output slots, the processing
    /// order names nodes of the graph, and every link joins ports that exist and fit.
    pub open spec fn wf(self) -> bool {
        &&& self.sinks.len() == self.nodes.len()
        &&& self.inputs.len() == self.nodes.len()
        &&& self.outputs.len() == self.nodes.len()
        &&& self.nodes.len() <= usize::MAX
        &&& forall|k: int| 0 <= k < self.order.len() ==> #[trigger] self.order[k] < self.nodes.len()
        &&& links_fit(self.nodes, self.edges)
    }

    /// The links contain a cycle.
    pub open spec fn cyclic(self) -> bool {
        crate::topology::has_cycle(self.edges, self.nodes.len() as int)
    }

    /// The processing order names every node once, and each after those that feed it.
    pub open spec fn in_order(self) -> bool {
        crate::topology::is_topological(self.order, self.nodes.len() as int, self.edges)
    }

    /// What a processing cycle works on.
    pub open spec fn cycle_state(self, ctx: ProcessContext) -> CycleState {
        CycleState { ctx, nodes: self.nodes, inputs: self.inputs, outputs: self.outputs }
    }

    /// The graph after a cycle that ended in state `s`.
    pub open spec fn after_cycle(self, s: CycleState) -> GraphView {
        GraphView { nodes: s.nodes, inputs: s.inputs, outputs: s.outputs, ..self }
    }

    /// The topology: the ports of every node and the links.
    pub open spec fn topology(self) -> SnapshotView {
        SnapshotView {
            nodes: Seq::new(
                self.nodes.len(),
                |i: int| node_snapshot(i as NodeId, self.nodes[i]),
            ),
            edges: Seq::new(self.edges.len(), |k: int| snapshot_edge(self.edges[k])),
        }
    }
}

/// The metadata of a node with the given id.
pub open spec fn node_snapshot(id: NodeId, node: NodeModel) -> NodeSnapshotView {
    NodeSnapshotView {
        id,
        inputs: crate::topology_pub::metas_of(node.inputs),
        outputs: crate::topology_pub::metas_of(node.outputs),
    }
}

/// The snapshot of a link.
pub open spec fn snapshot_edge(e: Edge) -> SnapshotEdge {
    SnapshotEdge { from: e.from, to: e.to }
}

/// The graph without nodes.
pub open spec fn empty_graph() -> GraphView {
    GraphView {
        nodes: Seq::empty(),
        sinks: Seq::empty(),
        edges: Seq::empty(),
        order: Seq::empty(),
        config: GraphConfig { num_frames: 0, sample_rate: 0, channels: 0 },
        compiled: false,
        inputs: Seq::empty(),
        outputs: Seq::empty(),
        subscribers: Seq::empty(),
    }
}

/// `g` with one more node, which has no frames yet, and with the given subscribers.
pub open spec fn with_new_node(
    g: GraphView,
    node: NodeModel,
    sink: bool,
    subscribers: Seq<SubscriberView>,
) -> GraphView {
    GraphView {
        nodes: g.nodes.push(node),
        sinks: g.sinks.push(sink),
        inputs: g.inputs.push(Seq::empty()),
        outputs: g.outputs.push(Seq::empty()),
        subscribers,
        ..g
    }
}

/// Why a link from the output `from` to the input `to` is refused, if it is.
pub open spec fn link_refused(
    nodes: Seq<NodeModel>,
    from: (NodeId, PortIdx),
    to: (NodeId, PortIdx),
) -> Option<GraphError> {
    let outputs = nodes[from.0 as int].outputs;
    let inputs = nodes[to.0 as int].inputs;
    let from_desc = outputs[from.1 as int];
    let to_desc = inputs[to.1 as int];
    if from.0 >= nodes.len() {
        Some(GraphError::NodeNotFound(from.0))
    } else if to.0 >= nodes.len() {
        Some(GraphError::NodeNotFound(to.0))
    } else if from.1 >= outputs.len() {
        Some(GraphError::PortNotFound { node: from.0, port: from.1 })
    } else if to.1 >= inputs.len() {
        Some(GraphError::PortNotFound { node: to.0, port: to.1 })
    } else if from_desc.direction != PortDirection::Output || to_desc.direction
        != PortDirection::Input {
        Some(GraphError::PortDirectionMismatch { from, to })
    } else if from_desc.channels != to_desc.channels || from_desc.sample_format
        != to_desc.sample_format {
        Some(GraphError::PortIncompatible { from, to })
    } else {
        None
    }
}

/// Linking the output `from` to the input `to` in `g` gives `r` and leaves the graph as `after`.
pub open spec fn link_outcome(
    g: GraphView,
    from: (NodeId, PortIdx),
    to: (NodeId, PortIdx),
    r: Result<LinkId, GraphError>,
    after: GraphView,
) -> bool {
    match link_refused(g.nodes, from, to) {
        Some(e) => r == Err::<LinkId, GraphError>(e) && after == g,
        None => {
            &&& r == Ok::<LinkId, GraphError>(g.edges.len() as LinkId)
            &&& after == (GraphView {
                edges: g.edges.push(Edge { from, to }),
                subscribers: after.subscribers,
                ..g
            })
            &&& crate::events::published(
                g.subscribers,
                EventView::LinkAdded(SnapshotEdge { from, to }),
                after.subscribers,
            )
        },
    }
}

/// Every link joins ports that exist and fit.
pub open spec fn links_fit(nodes: Seq<NodeModel>, edges: Seq<Edge>) -> bool {
    forall|k: int|
        0 <= k < edges.len() ==> link_refused(
            nodes,
            (#[trigger] edges[k]).from,
            edges[k].to,
        ) is None
}

/// Some node has a port.
pub open spec fn has_ports(nodes: Seq<NodeModel>) -> bool {
    exists|i: int|
        0 <= i < nodes.len() && ((#[trigger] nodes[i]).inputs.len() > 0 || nodes[i].outputs.len()
            > 0)
}

/// One silent frame for each of `count` ports.
pub open spec fn silent_slots(count: nat, config: GraphConfig) -> Seq<FrameView> {
    Seq::new(
        count,
        |i: int|
            crate::frame::silent_frame(config.channels, config.num_frames, config.sample_rate),
    )
}

/// `g` after it was compiled with the processing order `order`, with the given subscribers.
pub open spec fn compiled_graph(
    g: GraphView,
    config: GraphConfig,
    order: Seq<NodeId>,
    subscribers: Seq<SubscriberView>,
) -> GraphView {
    GraphView {
        order,
        config,
        compiled: true,
        inputs: Seq::new(
            g.nodes.len(),
            |i: int| silent_slots(g.nodes[i].inputs.len(), config),
        ),
        outputs: Seq::new(
            g.nodes.len(),
            |i: int| silent_slots(g.nodes[i].outputs.len(), config),
        ),
        subscribers,
        ..g
    }
}

/// `nodes` lists, in ascending order, the nodes that no order can place: those on cycles and those
/// downstream of them.
pub open spec fn names_unordered(g: GraphView, nodes: Seq<NodeId>) -> bool {
    &&& nodes.len() > 0
    &&& forall|i: int, j: int|
        0 <= i < j < nodes.len() ==> #[trigger] nodes[i] < #[trigger] nodes[j]
    &&& forall|v: NodeId| #[trigger]
        nodes.contains(v) <==> v < g.nodes.len() && crate::topology::behind_cycle(
            g.edges,
            g.nodes.len() as int,
            v,
        )
}

/// The frames that compiling `g` would allocate can exist.
pub open spec fn compile_fits(g: GraphView, config: GraphConfig) -> bool {
    !g.compiled && !g.cyclic() && has_ports(g.nodes) ==> crate::frame::frame_fits(
        config.channels,
        config.num_frames,
    )
}

/// Compiling `g` gives `r` and leaves the graph as `after`.
pub open spec fn compile_outcome(
    g: GraphView,
    config: GraphConfig,
    r: Result<(), GraphError>,
    after: GraphView,
) -> bool {
    if g.compiled {
        r == Err::<(), GraphError>(GraphError::AlreadyCompiled) && after == g
    } else if g.cyclic() {
        &&& r matches Err(GraphError::CycleDetected { nodes })
        &&& names_unordered(g, nodes@)
        &&& after == g
    } else {
        &&& r is Ok
        &&& after == compiled_graph(g, config, after.order, after.subscribers)
        &&& after.in_order()
        &&& crate::topology::in_release_order(after.order, g.nodes.len() as int, g.edges)
        &&& crate::events::published(
            g.subscribers,
            EventView::GraphCompiled,
            after.subscribers,
        )
    }
}

/// Allocates one silent frame for each of `count` ports.
fn allocate_slots(count: usize, config: GraphConfig) -> (r: Vec<AudioFrame>)
    requires
        count > 0 ==> crate::frame::frame_fits(config.channels, config.num_frames),
    ensures
        crate::frame::frame_views(r@) == silent_slots(count as nat, config),
{
    let mut r: Vec<AudioFrame> = Vec::new();
    let mut i: usize = 0;
    while i < count
        invariant
            i <= count,
            count > 0 ==> crate::frame::frame_fits(config.channels, config.num_frames),
            r@.len() == i,
            forall|k: int|
                0 <= k < i ==> (#[trigger] r@[k])@ == crate::frame::silent_frame(
                    config.channels,
                    config.num_frames,
                    config.sample_rate,
                ),
        decreases count - i,
    {
        r.push(AudioFrame::silence(config.channels, config.num_frames, config.sample_rate));
        i = i + 1;
    }
    assert(crate::frame::frame_views(r@) =~= silent_slots(count as nat, config));
    r
}

/// A cycle may lead from the graph `g` and the context `ctx` to `after` and `ctx_after`.
pub open spec fn cycle_run(
    g: GraphView,
    ctx: ProcessContext,
    after: GraphView,
    ctx_after: ProcessContext,
) -> bool {
    &&& crate::cycle::cycle(
        g.edges,
        g.order,
        g.cycle_state(ctx),
        after.cycle_state(ctx_after),
    )
    &&& after == g.after_cycle(after.cycle_state(ctx_after))
}

/// Processing a cycle of `g` in the context `ctx` gives `r` and leaves the two as `after` and
/// `ctx_after`.
pub open spec fn cycle_outcome(
    g: GraphView,
    ctx: ProcessContext,
    r: Result<(), GraphError>,
    after: GraphView,
    ctx_after: ProcessContext,
) -> bool {
    if g.compiled {
        r is Ok && cycle_run(g, ctx, after, ctx_after)
    } else {
        r == Err::<(), GraphError>(GraphError::NotCompiled) && after == g && ctx_after == ctx
    }
}

/// Every sink among `nodes` was flushed, with the result in `results`, and all else was left alone.
pub open spec fn sinks_flushed(
    nodes: Seq<NodeModel>,
    sinks: Seq<bool>,
    results: Seq<Result<(), FlushError>>,
    after: Seq<NodeModel>,
) -> bool {
    &&& results.len() == nodes.len()
    &&& after.len() == nodes.len()
    &&& forall|i: int|
        0 <= i < nodes.len() ==> if sinks[i] {
            crate::node::may_flush(nodes[i], #[trigger] results[i], after[i])
        } else {
            results[i] is Ok && after[i] == nodes[i]
        }
}

/// `first` is the first error among `results`, if there is one.
pub open spec fn is_first_error(
    results: Seq<Result<(), FlushError>>,
    first: Option<FlushError>,
) -> bool {
    match first {
        Some(e) => exists|i: int|
            0 <= i < results.len() && #[trigger] results[i] == Err::<(), FlushError>(e) && (forall|
                j: int,
            |
                0 <= j < i ==> (#[trigger] results[j]) is Ok),
        None => forall|i: int| 0 <= i < results.len() ==> (#[trigger] results[i]) is Ok,
    }
}

/// The number of sinks.
pub open spec fn sink_count(sinks: Seq<bool>) -> nat {
    sinks.filter(|sink: bool| sink).len()
}

proof fn lemma_first_error_grows(
    results: Seq<Result<(), FlushError>>,
    first: Option<FlushError>,
    result: Result<(), FlushError>,
    then: Option<FlushError>,
)
    requires
        is_first_error(results, first),
        then == match (first, result) {
            (None, Err(e)) => Some(e),
            _ => first,
        },
    ensures
        is_first_error(results.push(result), then),
{
    let longer = results.push(result);
    assert forall|j: int| 0 <= j < results.len() implies longer[j] == #[trigger] results[j] by {}
    match first {
        Some(e) => {
            let i = choose|i: int|
                0 <= i < results.len() && #[trigger] results[i] == Err::<(), FlushError>(e) && (
                forall|j: int| 0 <= j < i ==> (#[trigger] results[j]) is Ok);
            assert(longer[i] == Err::<(), FlushError>(e));
            assert forall|j: int| 0 <= j < i implies (#[trigger] longer[j]) is Ok by {
                assert(results[j] is Ok);
            }
        },
        None => {
            assert forall|j: int| 0 <= j < results.len() implies (#[trigger] longer[j]) is Ok by {
                assert(results[j] is Ok);
            }
            assert(longer[results.len() as int] == result);
        },
    }
}

/// `g` after `src` was copied into the frame of an output port. A port without a frame is ignored.
pub open spec fn fed(g: GraphView, node: NodeId, port: PortIdx, src: FrameView) -> GraphView {
    let slots = g.outputs[node as int];
    if crate::cycle::has_slot(g.outputs, (node, port)) {
        GraphView {
            outputs: g.outputs.update(
                node as int,
                slots.update(port as int, crate::frame::copied_over(slots[port as int], src)),
            ),
            ..g
        }
    } else {
        g
    }
}

/// The last node of a snapshot with the given id stands at position `i`.
pub open spec fn last_with_id(nodes: Seq<NodeSnapshotView>, id: NodeId, i: int) -> bool {
    &&& 0 <= i < nodes.len()
    &&& nodes[i].id == id
    &&& forall|j: int| i < j < nodes.len() ==> (#[trigger] nodes[j]).id != id
}

/// The id that the node `id` of a snapshot gets in a graph that is built from it: its position.
pub open spec fn placed(nodes: Seq<NodeSnapshotView>, id: NodeId) -> Option<NodeId> {
    if exists|i: int| last_with_id(nodes, id, i) {
        Some((choose|i: int| last_with_id(nodes, id, i)) as NodeId)
    } else {
        None
    }
}

/// The edge of a snapshot between the ids that its nodes get in a graph that is built from it.
pub open spec fn placed_edge(nodes: Seq<NodeSnapshotView>, se: SnapshotEdge) -> Edge {
    Edge {
        from: (placed(nodes, se.from.0)->0, se.from.1),
        to: (placed(nodes, se.to.0)->0, se.to.1),
    }
}

/// Why an edge of a snapshot cannot be linked between the nodes `supplied`, if it cannot.
pub open spec fn edge_refused(
    nodes: Seq<NodeSnapshotView>,
    supplied: Seq<NodeModel>,
    se: SnapshotEdge,
) -> Option<GraphError> {
    if placed(nodes, se.from.0) is None {
        Some(GraphError::NodeNotFound(se.from.0))
    } else if placed(nodes, se.to.0) is None {
        Some(GraphError::NodeNotFound(se.to.0))
    } else {
        let edge = placed_edge(nodes, se);
        link_refused(supplied, edge.from, edge.to)
    }
}

/// A graph that holds the given plain nodes and links, and is not compiled.
pub open spec fn built_graph(nodes: Seq<NodeModel>, edges: Seq<Edge>) -> GraphView {
    GraphView {
        nodes,
        sinks: Seq::new(nodes.len(), |i: int| false),
        edges,
        inputs: Seq::new(nodes.len(), |i: int| Seq::empty()),
        outputs: Seq::new(nodes.len(), |i: int| Seq::empty()),
        ..empty_graph()
    }
}

/// The edges of a snapshot between the ids that its nodes get in a graph that is built from it.
pub open spec fn placed_edges(s: SnapshotView) -> Seq<Edge> {
    Seq::new(s.edges.len(), |k: int| placed_edge(s.nodes, s.edges[k]))
}

/// Every edge of the snapshot can be linked between the nodes `supplied`, or `r` is the error of
/// the first one that cannot.
pub open spec fn linked_until(
    s: SnapshotView,
    supplied: Seq<NodeModel>,
    r: Result<(), GraphError>,
) -> bool {
    match r {
        Ok(()) => forall|k: int|
            0 <= k < s.edges.len() ==> edge_refused(
                s.nodes,
                supplied,
                #[trigger] s.edges[k],
            ) is None,
        Err(e) => exists|k: int|
            0 <= k < s.edges.len() && edge_refused(s.nodes, supplied, #[trigger] s.edges[k])
                == Some(e) && forall|j: int|
                0 <= j < k ==> edge_refused(s.nodes, supplied, #[trigger] s.edges[j]) is None,
    }
}

/// `r` is what building a graph from the snapshot `s` with the nodes `supplied` gives: the graph
/// with every edge of the snapshot linked, or the error of the first edge that cannot be.
pub open spec fn assembly(
    s: SnapshotView,
    supplied: Seq<NodeModel>,
    r: Result<Graph, GraphError>,
) -> bool {
    match r {
        Ok(g) => linked_until(s, supplied, Ok(())) && g@ == built_graph(
            supplied,
            placed_edges(s),
        ),
        Err(e) => linked_until(s, supplied, Err(e)),
    }
}

/// The models of a list of nodes.
pub open spec fn node_models(nodes: Seq<Box<dyn AudioNode>>) -> Seq<NodeModel> {
    Seq::new(nodes.len(), |i: int| nodes[i].model())
}

/// `asked` lists what `factory` gave for the nodes of a snapshot in their order, up to the first
/// one that it did not supply.
pub open spec fn asked_in_turn<F: FnMut(NodeId) -> Option<Box<dyn AudioNode>>>(
    factory: F,
    nodes: Seq<NodeSnapshotView>,
    asked: Seq<Option<Box<dyn AudioNode>>>,
) -> bool {
    &&& asked.len() <= nodes.len()
    &&& forall|i: int|
        0 <= i < asked.len() ==> call_ensures(factory, (nodes[i].id,), #[trigger] asked[i])
    &&& forall|i: int| 0 <= i < asked.len() - 1 ==> (#[trigger] asked[i]) is Some
    &&& asked.len() < nodes.len() ==> asked.len() > 0 && asked.last() is None
}

/// Appends `x` to `v`. With `x` as the first argument, its type is fixed before that of the list, so
/// that a boxed node goes in as it is, without a coercion from one trait object to another.
fn append<T>(x: T, v: &mut Vec<T>)
    ensures
        final(v)@ == old(v)@.push(x),
{
    v.push(x);
}

impl Graph {
    /// Creates an empty graph.
    #[must_use]
    pub fn new() -> (r: Self)
        ensures
            r@ == empty_graph(),
            r@.wf(),
    {
        let r = Graph {
            nodes: Vec::new(),
            edges: Vec::new(),
            execution_order: Vec::new(),
            config: GraphConfig::new(0, 0, 0),
            compiled: false,
            input_slots: Vec::new(),
            output_slots: Vec::new(),
            subscribers: Vec::new(),
        };
        assert(r@ =~= empty_graph());
        r
    }

    /// Adds a node and returns its id, which is its position in insertion order. Its frames are
    /// allocated by [`Graph::compile`].
    #[must_use]
    pub fn add_node(&mut self, node: Box<dyn AudioNode>) -> (id: NodeId)
        requires
            old(self)@.wf(),
        ensures
            final(self)@.wf(),
            id == old(self)@.nodes.len(),
            final(self)@.nodes.last() == node.model(),
            final(self)@ == with_new_node(
                old(self)@,
                final(self)@.nodes.last(),
                false,
                final(self)@.subscribers,
            ),
            crate::events::published(
                old(self)@.subscribers,
                EventView::NodeAdded(node_snapshot(id, final(self)@.nodes.last())),
                final(self)@.subscribers,
            ),
    {
        let slot = Slot::Plain(node);
        self.add_slot(slot)
    }

    /// Adds a sink, which [`Graph::flush_sinks`] flushes, and returns its id, which is its
    /// position in insertion order.
    #[must_use]
    pub fn add_sink(&mut self, sink: Box<dyn SinkNode>) -> (id: NodeId)
        requires
            old(self)@.wf(),
        ensures
            final(self)@.wf(),
            id == old(self)@.nodes.len(),
            final(self)@.nodes.last() == sink.sink_model(),
            final(self)@ == with_new_node(
                old(self)@,
                final(self)@.nodes.last(),
                true,
                final(self)@.subscribers,
            ),
            crate::events::published(
                old(self)@.subscribers,
                EventView::NodeAdded(node_snapshot(id, final(self)@.nodes.last())),
                final(self)@.subscribers,
            ),
    {
        let slot = Slot::Sink(sink);
        self.add_slot(slot)
    }

    /// Adds a node of either kind.
    fn add_slot(&mut self, slot: NodeSlot) -> (id: NodeId)
        requires
            old(self)@.wf(),
        ensures
            final(self)@.wf(),
            id == old(self)@.nodes.len(),
            final(self)@ == with_new_node(
                old(self)@,
                slot_model(slot),
                slot is Sink,
                final(self)@.subscribers,
            ),
            crate::events::published(
                old(self)@.subscribers,
                EventView::NodeAdded(node_snapshot(id, slot_model(slot))),
                final(self)@.subscribers,
            ),
    {
        let id: NodeId = self.nodes.len();
        let ghost node = slot_model(slot);
        let ghost sink = slot is Sink;
        append(slot, &mut self.nodes);
        self.input_slots.push(Vec::new());
        self.output_slots.push(Vec::new());
        assert(self@ =~= with_new_node(old(self)@, node, sink, self@.subscribers)) by {
            assert(self@.nodes =~= old(self)@.nodes.push(node));
            assert(self@.sinks =~= old(self)@.sinks.push(sink));
            assert(self@.inputs =~~= old(self)@.inputs.push(Seq::empty()));
            assert(self@.outputs =~~= old(self)@.outputs.push(Seq::empty()));
        }
        assert(self@.nodes.len() == self.nodes.len());
        self.emit_node_added(id);
        id
    }

    /// The metadata of node `id`.
    fn snapshot_of(&self, id: NodeId) -> (r: NodeSnapshot)
        requires
            id < self@.nodes.len(),
        ensures
            r@ == node_snapshot(id, self@.nodes[id as int]),
    {
        let node = &self.nodes[id];
        NodeSnapshot {
            id,
            inputs: PortMeta::from_descriptors(node.inputs()),
            outputs: PortMeta::from_descriptors(node.outputs()),
        }
    }

    /// Tells the subscribers that node `id` was added.
    fn emit_node_added(&mut self, id: NodeId)
        requires
            id < old(self)@.nodes.len(),
        ensures
            final(self)@ == (GraphView { subscribers: final(self)@.subscribers, ..old(self)@ }),
            crate::events::published(
                old(self)@.subscribers,
                EventView::NodeAdded(node_snapshot(id, old(self)@.nodes[id as int])),
                final(self)@.subscribers,
            ),
    {
        let snapshot = self.snapshot_of(id);
        self.emit_event(&TopologyEvent::NodeAdded(snapshot));
    }

    /// Sends an event to every subscriber and drops those that it could not reach.
    fn emit_event(&mut self, event: &TopologyEvent)
        ensures
            final(self)@ == (GraphView { subscribers: final(self)@.subscribers, ..old(self)@ }),
            crate::events::published(
                old(self)@.subscribers,
                event@,
                final(self)@.subscribers,
            ),
    {
        crate::events::publish(&mut self.subscribers, event);
    }

    /// Links an output port to an input port and returns the id of the link. A compiled graph is
    /// not compiled again: the order in which it processes its nodes stays as it is.
    ///
    /// Fails, and changes nothing, if a node or a port does not exist, if the ports do not lead
    /// from an output to an input, or if they differ in channel count or sample format.
    pub fn link(&mut self, from: (NodeId, PortIdx), to: (NodeId, PortIdx)) -> (r: Result<
        LinkId,
        GraphError,
    >)
        requires
            old(self)@.wf(),
        ensures
            final(self)@.wf(),
            link_outcome(old(self)@, from, to, r, final(self)@),
    {
        let (from_node, from_port) = from;
        let (to_node, to_port) = to;
        if from_node >= self.nodes.len() {
            return Err(GraphError::NodeNotFound(from_node));
        }
        if to_node >= self.nodes.len() {
            return Err(GraphError::NodeNotFound(to_node));
        }
        let outputs = self.nodes[from_node].outputs();
        if from_port >= outputs.len() {
            return Err(GraphError::PortNotFound { node: from_node, port: from_port });
        }
        let from_desc: PortDescriptor = outputs[from_port];
        let inputs = self.nodes[to_node].inputs();
        if to_port >= inputs.len() {
            return Err(GraphError::PortNotFound { node: to_node, port: to_port });
        }
        let to_desc: PortDescriptor = inputs[to_port];
        if from_desc.direction != PortDirection::Output || to_desc.direction
            != PortDirection::Input {
            return Err(GraphError::PortDirectionMismatch { from, to });
        }
        if from_desc.channels != to_desc.channels || from_desc.sample_format
            != to_desc.sample_format {
            return Err(GraphError::PortIncompatible { from, to });
        }
        let link_id: LinkId = self.edges.len();
        self.edges.push(Edge { from, to });
        let ghost linked = self@;
        assert(linked == (GraphView { edges: old(self)@.edges.push(Edge { from, to }), ..old(self)@ }));
        self.emit_event(&TopologyEvent::LinkAdded(SnapshotEdge { from, to }));
        proof {
            let g = old(self)@;
            assert(self@ == (GraphView { subscribers: self@.subscribers, ..linked }));
            assert(link_refused(g.nodes, from, to) is None);
            assert forall|k: int| 0 <= k < linked.edges.len() implies link_refused(
                g.nodes,
                (#[trigger] linked.edges[k]).from,
                linked.edges[k].to,
            ) is None by {
                if k < g.edges.len() {
                    assert(linked.edges[k] == g.edges[k]);
                }
            }
            assert(links_fit(self@.nodes, self@.edges));
        }
        Ok(link_id)
    }

    /// Compiles the graph: orders the nodes so that each comes after those that feed it, and
    /// allocates a silent frame for every port. No other method allocates frames.
    ///
    /// Fails, and changes nothing, if the graph is compiled already or if it contains a cycle;
    /// then the error names the nodes on cycles and downstream of them, in ascending order.
    pub fn compile(&mut self, config: GraphConfig) -> (r: Result<(), GraphError>)
        requires
            old(self)@.wf(),
            compile_fits(old(self)@, config),
        ensures
            final(self)@.wf(),
            compile_outcome(old(self)@, config, r, final(self)@),
    {
        if self.compiled {
            return Err(GraphError::AlreadyCompiled);
        }
        let order: Vec<NodeId> = match topological_sort(self.nodes.len(), self.edges.as_slice()) {
            Ok(order) => order,
            Err(remaining) => {
                return Err(GraphError::CycleDetected { nodes: remaining });
            },
        };
        let ghost n = self@.nodes;
        let mut input_slots: Vec<Vec<AudioFrame>> = Vec::new();
        let mut output_slots: Vec<Vec<AudioFrame>> = Vec::new();
        let mut i: usize = 0;
        while i < self.nodes.len()
            invariant
                i <= n.len(),
                *self == *old(self),
                n == self@.nodes,
                has_ports(n) ==> crate::frame::frame_fits(config.channels, config.num_frames),
                input_slots@.len() == i,
                output_slots@.len() == i,
                forall|k: int|
                    0 <= k < i ==> #[trigger] crate::frame::frame_views(input_slots@[k]@)
                        == silent_slots(n[k].inputs.len(), config),
                forall|k: int|
                    0 <= k < i ==> #[trigger] crate::frame::frame_views(output_slots@[k]@)
                        == silent_slots(n[k].outputs.len(), config),
            decreases n.len() - i,
        {
            let node = &self.nodes[i];
            assert(slot_model(*node) == n[i as int]);
            input_slots.push(allocate_slots(node.inputs().len(), config));
            output_slots.push(allocate_slots(node.outputs().len(), config));
            i = i + 1;
        }
        self.execution_order = order;
        self.config = config;
        self.input_slots = input_slots;
        self.output_slots = output_slots;
        self.compiled = true;
        assert(self@ =~= compiled_graph(old(self)@, config, order@, self@.subscribers)) by {
            assert(self@.inputs =~= Seq::new(
                n.len(),
                |k: int| silent_slots(n[k].inputs.len(), config),
            ));
            assert(self@.outputs =~= Seq::new(
                n.len(),
                |k: int| silent_slots(n[k].outputs.len(), config),
            ));
        }
        self.emit_event(&TopologyEvent::GraphCompiled);
        Ok(())
    }

    /// Processes one audio cycle, on the real-time thread: for each node in dependency order it
    /// copies the outputs that feed the node's inputs, or silences the inputs that nothing feeds,
    /// and lets the node process them. Nothing here allocates, locks, panics or calls the system.
    ///
    /// Fails, and changes nothing, if the graph is not compiled.
    pub fn process_cycle(&mut self, ctx: &mut ProcessContext) -> (r: Result<(), GraphError>)
        requires
            old(self)@.wf(),
        ensures
            final(self)@.wf(),
            cycle_outcome(old(self)@, *old(ctx), r, final(self)@, *final(ctx)),
    {
        if !self.compiled {
            return Err(GraphError::NotCompiled);
        }
        let ghost g = self@;
        let ghost mut trace: Seq<CycleState> = seq![self@.cycle_state(*ctx)];
        let mut k: usize = 0;
        while k < self.execution_order.len()
            invariant
                k <= self@.order.len(),
                self@.wf(),
                self@ == g.after_cycle(trace.last()),
                trace.len() == k + 1,
                trace[0] == g.cycle_state(*old(ctx)),
                trace.last() == self@.cycle_state(*ctx),
                forall|j: int|
                    0 <= j < k ==> #[trigger] crate::cycle::node_step(
                        g.edges,
                        g.order[j],
                        trace[j],
                        trace[j + 1],
                    ),
            decreases self@.order.len() - k,
        {
            let n: NodeId = self.execution_order[k];
            let ghost a = self@.cycle_state(*ctx);
            self.fill_inputs(n);
            self.run_node(n, ctx);
            proof {
                let b = self@.cycle_state(*ctx);
                let longer = trace.push(b);
                assert(crate::cycle::node_step(g.edges, g.order[k as int], a, b));
                assert forall|j: int| 0 <= j < k + 1 implies #[trigger] crate::cycle::node_step(
                    g.edges,
                    g.order[j],
                    longer[j],
                    longer[j + 1],
                ) by {
                    if j < k {
                        assert(longer[j] == trace[j]);
                        assert(longer[j + 1] == trace[j + 1]);
                    }
                }
                trace = longer;
            }
            k = k + 1;
        }
        proof {
            assert(crate::cycle::is_trace(g.edges, g.order, trace));
            assert(self@ == g.after_cycle(self@.cycle_state(*ctx)));
        }
        Ok(())
    }

    /// Fills the input slots of node `n`.
    fn fill_inputs(&mut self, n: NodeId)
        requires
            old(self)@.wf(),
            n < old(self)@.nodes.len(),
        ensures
            final(self)@ == (GraphView {
                inputs: old(self)@.inputs.update(
                    n as int,
                    crate::cycle::filled_slots(
                        old(self)@.edges,
                        n,
                        old(self)@.inputs[n as int],
                        old(self)@.outputs,
                    ),
                ),
                ..old(self)@
            }),
    {
        let ghost g = self@;
        let ghost slots = g.inputs[n as int];
        let ghost filled = crate::cycle::filled_slots(g.edges, n, slots, g.outputs);
        let count: usize = self.input_slots[n].len();
        let mut p: PortIdx = 0;
        while p < count
            invariant
                g.wf(),
                count == slots.len(),
                n < g.nodes.len(),
                p <= slots.len(),
                slots == g.inputs[n as int],
                filled == crate::cycle::filled_slots(g.edges, n, slots, g.outputs),
                self@ == (GraphView { inputs: self@.inputs, ..g }),
                self@.inputs == g.inputs.update(n as int, self@.inputs[n as int]),
                self@.inputs[n as int].len() == slots.len(),
                forall|q: int|
                    0 <= q < slots.len() ==> #[trigger] self@.inputs[n as int][q] == if q < p {
                        filled[q]
                    } else {
                        slots[q]
                    },
            decreases slots.len() - p,
        {
            self.fill_input(n, p);
            p = p + 1;
        }
        assert(self@.inputs[n as int] =~= filled);
    }

    /// Fills the input slot of port `p` of node `n`.
    fn fill_input(&mut self, n: NodeId, p: PortIdx)
        requires
            old(self)@.wf(),
            n < old(self)@.nodes.len(),
            p < old(self)@.inputs[n as int].len(),
        ensures
            final(self)@ == (GraphView {
                inputs: old(self)@.inputs.update(
                    n as int,
                    old(self)@.inputs[n as int].update(
                        p as int,
                        crate::cycle::filled_slot(
                            old(self)@.edges,
                            (n, p),
                            old(self)@.inputs[n as int][p as int],
                            old(self)@.outputs,
                        ),
                    ),
                ),
                ..old(self)@
            }),
    {
        let ghost g = self@;
        let ghost slots = g.inputs[n as int];
        let mut k: usize = 0;
        while k < self.edges.len()
            invariant
                k <= g.edges.len(),
                *self == *old(self),
                g == self@,
                slots == g.inputs[n as int],
                g.wf(),
                n < g.nodes.len(),
                p < slots.len(),
                forall|j: int| 0 <= j < k ==> (#[trigger] g.edges[j]).to != (n, p),
            decreases g.edges.len() - k,
        {
            let edge = self.edges[k];
            if edge.to.0 == n && edge.to.1 == p {
                let (src, src_port) = edge.from;
                proof {
                    crate::cycle::lemma_source_of(g.edges, (n, p), k as int);
                }
                if src < self.output_slots.len() && src_port < self.output_slots[src].len() {
                    let ghost from = self.output_slots@[src as int]@[src_port as int]@;
                    self.input_slots[n][p].copy_from(&self.output_slots[src][src_port]);
                    assert(self@.inputs =~~= g.inputs.update(
                        n as int,
                        slots.update(
                            p as int,
                            crate::frame::copied_over(slots[p as int], from),
                        ),
                    ));
                } else {
                    assert(g.inputs.update(n as int, slots.update(p as int, slots[p as int]))
                        =~~= g.inputs);
                }
                return;
            }
            k = k + 1;
        }
        assert forall|j: int| !crate::cycle::first_link_to(g.edges, (n, p), j) by {}
        self.input_slots[n][p].mute();
        assert(self@.inputs =~~= g.inputs.update(
            n as int,
            slots.update(p as int, crate::frame::silenced(slots[p as int])),
        ));
    }

    /// Lets node `n` process its input slots.
    fn run_node(&mut self, n: NodeId, ctx: &mut ProcessContext)
        requires
            old(self)@.wf(),
            n < old(self)@.nodes.len(),
        ensures
            final(self)@ == (GraphView {
                nodes: old(self)@.nodes.update(n as int, final(self)@.nodes[n as int]),
                outputs: old(self)@.outputs.update(n as int, final(self)@.outputs[n as int]),
                ..old(self)@
            }),
            crate::node::may_process(
                old(self)@.nodes[n as int],
                (Exchange {
                    ctx: *old(ctx),
                    ins: old(self)@.inputs[n as int],
                    outs: old(self)@.outputs[n as int],
                    ctx_after: *final(ctx),
                    outs_after: final(self)@.outputs[n as int],
                }),
                final(self)@.nodes[n as int],
            ),
    {
        self.nodes[n].process(
            ctx,
            self.input_slots[n].as_slice(),
            self.output_slots[n].as_mut_slice(),
        );
        assert(self@.nodes =~= old(self)@.nodes.update(n as int, self@.nodes[n as int]));
        assert(self@.sinks =~= old(self)@.sinks);
        assert(self@.outputs =~= old(self)@.outputs.update(n as int, self@.outputs[n as int]));
    }

    /// Flushes every sink, between cycles and off the real-time thread, and returns how many there
    /// are and the first error, in the order of their ids. A sink that fails does not keep the
    /// others from being flushed.
    pub fn flush_sinks(&mut self) -> (r: (usize, Option<FlushError>))
        requires
            old(self)@.wf(),
        ensures
            final(self)@.wf(),
            final(self)@ == (GraphView { nodes: final(self)@.nodes, ..old(self)@ }),
            r.0 == sink_count(old(self)@.sinks),
            exists|results: Seq<Result<(), FlushError>>| #[trigger]
                sinks_flushed(
                    old(self)@.nodes,
                    old(self)@.sinks,
                    results,
                    final(self)@.nodes,
                ) && is_first_error(results, r.1),
    {
        let ghost g = self@;
        let ghost mut results: Seq<Result<(), FlushError>> = Seq::empty();
        let mut count: usize = 0;
        let mut first: Option<FlushError> = None;
        let mut i: usize = 0;
        let ghost is_sink = |sink: bool| sink;
        assert(g.sinks.take(0).filter(is_sink).len() == 0) by {
            reveal_with_fuel(Seq::filter, 1);
        }
        while i < self.nodes.len()
            invariant
                g.wf(),
                i <= g.nodes.len(),
                self@ == (GraphView { nodes: self@.nodes, ..g }),
                self@.nodes.len() == g.nodes.len(),
                results.len() == i,
                is_sink == (|sink: bool| sink),
                count == g.sinks.take(i as int).filter(is_sink).len(),
                count <= i,
                is_first_error(results, first),
                forall|k: int|
                    0 <= k < i ==> if g.sinks[k] {
                        crate::node::may_flush(g.nodes[k], #[trigger] results[k], self@.nodes[k])
                    } else {
                        results[k] is Ok && self@.nodes[k] == g.nodes[k]
                    },
                forall|k: int| i <= k < g.nodes.len() ==> #[trigger] self@.nodes[k] == g.nodes[k],
            decreases g.nodes.len() - i,
        {
            let ghost before = self@;
            proof {
                assert(g.sinks.take(i + 1).drop_last() =~= g.sinks.take(i as int));
                reveal_with_fuel(Seq::filter, 1);
            }
            let outcome = self.nodes[i].flush();
            assert(self@.nodes =~= before.nodes.update(i as int, self@.nodes[i as int]));
            assert(self@.sinks =~= before.sinks);
            let ghost result = match outcome {
                Some(result) => result,
                None => Ok(()),
            };
            let ghost longer = results.push(result);
            assert forall|k: int| 0 <= k < i + 1 implies if g.sinks[k] {
                crate::node::may_flush(g.nodes[k], #[trigger] longer[k], self@.nodes[k])
            } else {
                longer[k] is Ok && self@.nodes[k] == g.nodes[k]
            } by {
                if k < i {
                    assert(longer[k] == results[k]);
                    assert(self@.nodes[k] == before.nodes[k]);
                } else {
                    assert(before.nodes[k] == g.nodes[k]);
                }
            }
            let ghost was_first = first;
            match outcome {
                Some(result) => {
                    count = count + 1;
                    match result {
                        Ok(()) => {},
                        Err(e) => {
                            if first.is_none() {
                                first = Some(e);
                            }
                        },
                    }
                },
                None => {},
            }
            proof {
                lemma_first_error_grows(results, was_first, result, first);
                results = longer;
            }
            i = i + 1;
        }
        assert(g.sinks.take(i as int) =~= g.sinks);
        assert(sinks_flushed(g.nodes, g.sinks, results, self@.nodes));
        assert forall|k: int| 0 <= k < g.nodes.len() implies crate::node::same_node(
            g.nodes[k],
            #[trigger] self@.nodes[k],
        ) by {
            assert(results[k] is Ok || results[k] is Err);
        }
        assert forall|k: int| 0 <= k < g.edges.len() implies link_refused(
            self@.nodes,
            (#[trigger] g.edges[k]).from,
            g.edges[k].to,
        ) is None by {
            assert(crate::node::same_node(
                g.nodes[g.edges[k].from.0 as int],
                self@.nodes[g.edges[k].from.0 as int],
            ));
        }
        (count, first)
    }

    /// Flushes the sink with the given id, between cycles and off the real-time thread.
    ///
    /// Fails, and changes nothing, if there is no such node or if it is not a sink; otherwise the
    /// result is that of the sink.
    pub fn flush_sink(&mut self, node: NodeId) -> (r: Result<(), FlushError>)
        requires
            old(self)@.wf(),
        ensures
            final(self)@.wf(),
            node >= old(self)@.nodes.len() ==> r == Err::<(), FlushError>(
                FlushError::NodeNotFound(node),
            ) && final(self)@ == old(self)@,
            node < old(self)@.nodes.len() && !old(self)@.sinks[node as int] ==> r == Err::<
                (),
                FlushError,
            >(FlushError::NotFlushable(node)) && final(self)@ == old(self)@,
            node < old(self)@.nodes.len() && old(self)@.sinks[node as int] ==> {
                &&& crate::node::may_flush(
                    old(self)@.nodes[node as int],
                    r,
                    final(self)@.nodes[node as int],
                )
                &&& final(self)@ == (GraphView {
                    nodes: old(self)@.nodes.update(
                        node as int,
                        final(self)@.nodes[node as int],
                    ),
                    ..old(self)@
                })
            },
    {
        if node >= self.nodes.len() {
            return Err(FlushError::NodeNotFound(node));
        }
        let outcome = self.nodes[node].flush();
        assert(self@.nodes =~= old(self)@.nodes.update(node as int, self@.nodes[node as int]));
        assert(self@.sinks =~= old(self)@.sinks);
        match outcome {
            Some(result) => result,
            None => {
                assert(self@.nodes =~= old(self)@.nodes);
                Err(FlushError::NotFlushable(node))
            },
        }
    }

    /// Seeds an output port from an external frame before a cycle. It is copied into the frame of
    /// the port, which keeps its size. A port without a frame is ignored.
    pub fn feed(&mut self, node: NodeId, port: PortIdx, src: &AudioFrame)
        requires
            old(self)@.wf(),
        ensures
            final(self)@.wf(),
            final(self)@ == fed(old(self)@, node, port, src@),
    {
        if node < self.output_slots.len() && port < self.output_slots[node].len() {
            let ghost slots = self@.outputs[node as int];
            self.output_slots[node][port].copy_from(src);
            assert(self@.outputs =~~= old(self)@.outputs.update(
                node as int,
                slots.update(port as int, crate::frame::copied_over(slots[port as int], src@)),
            ));
        }
    }

    /// Borrows the frame at an output port, for example after a cycle. `None` if the port has no
    /// frame.
    #[must_use]
    pub fn read_output(&self, node: NodeId, port: PortIdx) -> (r: Option<&AudioFrame>)
        ensures
            r is Some <==> crate::cycle::has_slot(self@.outputs, (node, port)),
            r matches Some(frame) ==> frame@ == self@.outputs[node as int][port as int],
    {
        if node < self.output_slots.len() && port < self.output_slots[node].len() {
            Some(&self.output_slots[node][port])
        } else {
            None
        }
    }

    /// Borrows the frame that reached an input port, for example that of a sink after a cycle.
    /// `None` if the port has no frame.
    #[must_use]
    pub fn read_input(&self, node: NodeId, port: PortIdx) -> (r: Option<&AudioFrame>)
        ensures
            r is Some <==> crate::cycle::has_slot(self@.inputs, (node, port)),
            r matches Some(frame) ==> frame@ == self@.inputs[node as int][port as int],
    {
        if node < self.input_slots.len() && port < self.input_slots[node].len() {
            Some(&self.input_slots[node][port])
        } else {
            None
        }
    }

    /// Returns the number of nodes.
    #[must_use]
    pub fn node_count(&self) -> (r: usize)
        ensures
            r == self@.nodes.len(),
    {
        self.nodes.len()
    }

    /// Returns the number of links.
    #[must_use]
    pub fn link_count(&self) -> (r: usize)
        ensures
            r == self@.edges.len(),
    {
        self.edges.len()
    }

    /// Returns whether the graph is compiled.
    #[must_use]
    pub fn is_compiled(&self) -> (r: bool)
        ensures
            r == self@.compiled,
    {
        self.compiled
    }

    /// Returns the configuration that the graph was compiled with, or one of zeros before that.
    #[must_use]
    pub fn config(&self) -> (r: GraphConfig)
        ensures
            r == self@.config,
    {
        self.config
    }

    /// The direction of a port: outputs are looked at first, then inputs. `None` if there is no
    /// such port.
    pub(crate) fn boundary_port_direction(&self, node: NodeId, port: PortIdx) -> (r: Option<
        PortDir,
    >)
        ensures
            r == crate::distributed::port_direction(self@.nodes, node, port),
    {
        if node >= self.nodes.len() {
            return None;
        }
        let slot = &self.nodes[node];
        assert(slot_model(*slot) == self@.nodes[node as int]);
        if port < slot.outputs().len() {
            Some(PortDir::Output)
        } else if port < slot.inputs().len() {
            Some(PortDir::Input)
        } else {
            None
        }
    }

    /// Subscribes to the changes of the topology. The receiver gets an event whenever a node or a
    /// link is added and when the graph is compiled; processing sends none. A subscriber whose
    /// receiver is gone is dropped when the next event is sent.
    #[must_use]
    pub fn subscribe_topology(&mut self) -> (rx: Receiver<TopologyEvent>)
        ensures
            final(self)@ == (GraphView {
                subscribers: old(self)@.subscribers.push(
                    (SubscriberView {
                        channel: crate::events::receives_from(rx),
                        sent: Seq::empty(),
                    }),
                ),
                ..old(self)@
            }),
    {
        crate::events::subscribe(&mut self.subscribers)
    }
}

impl Graph {
    /// Builds a graph from a snapshot and one node for each node of the snapshot, in its order. The
    /// port metadata of the snapshot is not looked at: links are checked against the ports of the
    /// nodes. A node's id is its position; the edges of the snapshot, which name the nodes by
    /// their ids there, are linked between the new ids. The graph is not compiled.
    ///
    /// Fails with the error of the first edge that cannot be linked:
    /// [`GraphError::NodeNotFound`] if the snapshot has no node with one of its ids, or the error
    /// of [`Graph::link`].
    pub fn assemble(snapshot: &TopologySnapshot, nodes: Vec<Box<dyn AudioNode>>) -> (r: Result<
        Graph,
        GraphError,
    >)
        requires
            nodes@.len() == snapshot@.nodes.len(),
        ensures
            assembly(snapshot@, node_models(nodes@), r),
            r matches Ok(g) ==> g@.wf(),
    {
        let ghost supplied = node_models(nodes@);
        let mut g = Graph::new();
        assert(g@ =~= built_graph(supplied.take(0), Seq::empty()));
        for node in it: nodes
            invariant
                g@.wf(),
                it.seq() == nodes@,
                supplied == node_models(nodes@),
                g@ == built_graph(supplied.take(it.index() as int), Seq::empty()),
        {
            let slot = Slot::Plain(node);
            let ghost before = g@;
            let _ = g.add_slot(slot);
            proof {
                crate::events::lemma_nobody_listens(
                    EventView::NodeAdded(
                        node_snapshot(before.nodes.len() as NodeId, node.model()),
                    ),
                    g@.subscribers,
                );
                assert(g@ =~= built_graph(
                    supplied.take(it.index() + 1),
                    Seq::empty(),
                ));
            }
        }
        assert(supplied.take(supplied.len() as int) =~= supplied);
        assert(g@.edges =~= Seq::empty());
        match g.link_all(snapshot) {
            Ok(()) => Ok(g),
            Err(e) => Err(e),
        }
    }

    /// Links every edge of a snapshot between the ids that its nodes have in this graph.
    fn link_all(&mut self, snapshot: &TopologySnapshot) -> (r: Result<(), GraphError>)
        requires
            old(self)@.wf(),
            old(self)@.subscribers.len() == 0,
            old(self)@.edges.len() == 0,
            old(self)@.nodes.len() == snapshot@.nodes.len(),
        ensures
            final(self)@.wf(),
            r is Ok ==> final(self)@ == (GraphView {
                edges: placed_edges(snapshot@),
                ..old(self)@
            }),
            linked_until(snapshot@, old(self)@.nodes, r),
    {
        let ghost s = snapshot@;
        let ghost base = self@;
        let mut k: usize = 0;
        while k < snapshot.edges.len()
            invariant
                s == snapshot@,
                k <= s.edges.len(),
                self@.wf(),
                base.subscribers.len() == 0,
                base.nodes.len() == s.nodes.len(),
                base == old(self)@,
                self@ == (GraphView { edges: self@.edges, ..base }),
                self@.edges.len() == k,
                forall|j: int|
                    0 <= j < k ==> #[trigger] self@.edges[j] == placed_edge(s.nodes, s.edges[j]),
                forall|j: int|
                    0 <= j < k ==> edge_refused(s.nodes, base.nodes, #[trigger] s.edges[j]) is None,
            decreases s.edges.len() - k,
        {
            let edge = snapshot.edges[k];
            assert(edge == s.edges[k as int]);
            match self.link_placed(snapshot, edge) {
                Ok(()) => {},
                Err(e) => {
                    return Err(e);
                },
            }
            k = k + 1;
        }
        assert(self@.edges =~= placed_edges(s));
        Ok(())
    }

    /// Links an edge of a snapshot between the ids that its nodes have in this graph.
    fn link_placed(&mut self, snapshot: &TopologySnapshot, edge: SnapshotEdge) -> (r: Result<
        (),
        GraphError,
    >)
        requires
            old(self)@.wf(),
            old(self)@.subscribers.len() == 0,
            old(self)@.nodes.len() == snapshot@.nodes.len(),
        ensures
            final(self)@.wf(),
            match edge_refused(snapshot@.nodes, old(self)@.nodes, edge) {
                Some(e) => r == Err::<(), GraphError>(e),
                None => r is Ok && final(self)@ == (GraphView {
                    edges: old(self)@.edges.push(placed_edge(snapshot@.nodes, edge)),
                    ..old(self)@
                }),
            },
    {
        let from: NodeId = match place(snapshot, edge.from.0) {
            Some(id) => id,
            None => {
                return Err(GraphError::NodeNotFound(edge.from.0));
            },
        };
        let to: NodeId = match place(snapshot, edge.to.0) {
            Some(id) => id,
            None => {
                return Err(GraphError::NodeNotFound(edge.to.0));
            },
        };
        match self.link((from, edge.from.1), (to, edge.to.1)) {
            Ok(_) => {
                proof {
                    assert(old(self)@.subscribers =~= Seq::empty());
                    crate::events::lemma_nobody_listens(
                        EventView::LinkAdded(
                            SnapshotEdge { from: (from, edge.from.1), to: (to, edge.to.1) },
                        ),
                        self@.subscribers,
                    );
                }
                Ok(())
            },
            Err(e) => Err(e),
        }
    }

    /// Builds a graph from a snapshot, asking `factory` for a node for each id of the snapshot. See
    /// [`Graph::assemble`] for the rest.
    ///
    /// Fails with [`GraphError::NodeNotFound`] at the first node that the factory does not supply.
    pub fn from_snapshot<F: FnMut(NodeId) -> Option<Box<dyn AudioNode>>>(
        snapshot: &TopologySnapshot,
        factory: &mut F,
    ) -> (r: Result<Graph, GraphError>)
        requires
            forall|id: NodeId| call_requires(*old(factory), (id,)),
        ensures
            r matches Ok(g) ==> g@.wf(),
            exists|asked: Seq<Option<Box<dyn AudioNode>>>| #[trigger]
                asked_in_turn(*old(factory), snapshot@.nodes, asked) && if asked.len() > 0
                    && asked.last() is None {
                    r == Err::<Graph, GraphError>(
                        GraphError::NodeNotFound(snapshot@.nodes[asked.len() - 1].id),
                    )
                } else {
                    assembly(
                        snapshot@,
                        Seq::new(asked.len(), |i: int| asked[i]->0.model()),
                        r,
                    )
                },
    {
        let mut nodes: Vec<Box<dyn AudioNode>> = Vec::new();
        let ghost mut asked: Seq<Option<Box<dyn AudioNode>>> = Seq::empty();
        let mut i: usize = 0;
        while i < snapshot.nodes.len()
            invariant
                i <= snapshot@.nodes.len(),
                forall|id: NodeId| call_requires(*factory, (id,)),
                *factory == *old(factory),
                asked.len() == i,
                nodes@.len() == i,
                forall|k: int|
                    0 <= k < i ==> call_ensures(
                        *factory,
                        (snapshot@.nodes[k].id,),
                        #[trigger] asked[k],
                    ),
                forall|k: int| 0 <= k < i ==> #[trigger] asked[k] == Some(nodes@[k]),
            decreases snapshot@.nodes.len() - i,
        {
            let id: NodeId = snapshot.nodes[i].id;
            let supplied = factory(id);
            proof {
                asked = asked.push(supplied);
            }
            match supplied {
                Some(node) => {
                    append(node, &mut nodes);
                },
                None => {
                    assert(asked_in_turn(*old(factory), snapshot@.nodes, asked));
                    return Err(GraphError::NodeNotFound(id));
                },
            }
            i = i + 1;
        }
        assert(asked_in_turn(*old(factory), snapshot@.nodes, asked));
        assert(node_models(nodes@) =~= Seq::new(asked.len(), |k: int| asked[k]->0.model()));
        Graph::assemble(snapshot, nodes)
    }
}

/// The id that the node `id` of a snapshot gets in a graph that is built from it.
fn place(snapshot: &TopologySnapshot, id: NodeId) -> (r: Option<NodeId>)
    ensures
        r == placed(snapshot@.nodes, id),
        r matches Some(i) ==> i < snapshot@.nodes.len(),
{
    let ghost nodes = snapshot@.nodes;
    let mut i: usize = snapshot.nodes.len();
    while i > 0
        invariant
            nodes == snapshot@.nodes,
            i <= nodes.len(),
            forall|j: int| i <= j < nodes.len() ==> (#[trigger] nodes[j]).id != id,
        decreases i,
    {
        i = i - 1;
        assert(nodes[i as int].id == snapshot.nodes@[i as int].id);
        if snapshot.nodes[i].id == id {
            proof {
                assert(last_with_id(nodes, id, i as int));
                let j = choose|j: int| last_with_id(nodes, id, j);
                if j < i {
                    assert(nodes[i as int].id != id);
                } else if i < j {
                    assert(nodes[j].id != id);
                }
            }
            return Some(i);
        }
    }
    None
}

impl Default for Graph {
    fn default() -> (r: Self)
        ensures
            r@ == empty_graph(),
            r@.wf(),
    {
        Graph::new()
    }
}

impl SnapshotSource for Graph {
    open spec fn topology(&self) -> SnapshotView {
        self@.topology()
    }

    fn topology_snapshot(&self) -> (r: TopologySnapshot) {
        let mut nodes: Vec<NodeSnapshot> = Vec::new();
        let mut i: usize = 0;
        while i < self.nodes.len()
            invariant
                i <= self@.nodes.len(),
                nodes@.len() == i,
                forall|k: int|
                    0 <= k < i ==> (#[trigger] nodes@[k])@ == node_snapshot(
                        k as NodeId,
                        self@.nodes[k],
                    ),
            decreases self@.nodes.len() - i,
        {
            nodes.push(self.snapshot_of(i));
            i = i + 1;
        }
        let mut edges: Vec<SnapshotEdge> = Vec::new();
        let mut k: usize = 0;
        while k < self.edges.len()
            invariant
                k <= self@.edges.len(),
                edges@.len() == k,
                forall|j: int| 0 <= j < k ==> #[trigger] edges@[j] == snapshot_edge(self@.edges[j]),
            decreases self@.edges.len() - k,
        {
            let edge = self.edges[k];
            edges.push(SnapshotEdge { from: edge.from, to: edge.to });
            k = k + 1;
        }
        let r = TopologySnapshot { nodes, edges };
        assert(r@.nodes =~= self@.topology().nodes);
        assert(r@.edges =~= self@.topology().edges);
        r
    }
}

} // verus!
