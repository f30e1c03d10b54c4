//! What the calls of a graph mean to whoever makes them, said of the links, ports, samples and nodes
//! themselves.

use crate::cycle::CycleState;
use crate::error::GraphError;
use crate::flush::FlushError;
use crate::frame::{AudioFrame, FrameView};
use crate::graph::{GraphConfig, GraphView, LinkId, NodeId, NodeSlot, PortIdx, Slot};
use crate::node::{AudioNode, Exchange, NodeModel, ProcessContext};
use crate::topology_pub::{EventView, NodeSnapshotView, SnapshotEdge, SnapshotView};
use vstd::prelude::*;

verus! {

/// A cycle runs if and only if the graph is compiled. One that does not run says so, and changes
/// neither the graph nor the context.
pub proof fn lemma_cycle_runs_if_compiled(
    g: GraphView,
    ctx: ProcessContext,
    r: Result<(), GraphError>,
    after: GraphView,
    ctx_after: ProcessContext,
)
    requires
        crate::graph::cycle_outcome(g, ctx, r, after, ctx_after),
    ensures
        g.compiled ==> r is Ok,
        !g.compiled ==> r == Err::<(), GraphError>(GraphError::NotCompiled),
        !g.compiled ==> after == g && ctx_after == ctx,
{
}

/// A cycle touches neither the links nor the ports, rules and kinds of the nodes, neither the order
/// nor the configuration, and tells nobody anything. It adds and removes no frame, and the input
/// frames keep their size.
pub proof fn lemma_cycle_touches_only_frames_and_states(
    g: GraphView,
    ctx: ProcessContext,
    after: GraphView,
    ctx_after: ProcessContext,
)
    requires
        g.wf(),
        crate::graph::cycle_outcome(g, ctx, Ok(()), after, ctx_after),
    ensures
        after.wf(),
        after.compiled && g.compiled,
        after.edges == g.edges,
        after.order == g.order,
        after.config == g.config,
        after.sinks == g.sinks,
        after.subscribers == g.subscribers,
        after.nodes.len() == g.nodes.len(),
        after.inputs.len() == g.inputs.len(),
        after.outputs.len() == g.outputs.len(),
        forall|i: int|
            0 <= i < g.nodes.len() ==> {
                &&& (#[trigger] after.nodes[i]).inputs == g.nodes[i].inputs
                &&& after.nodes[i].outputs == g.nodes[i].outputs
                &&& after.nodes[i].process == g.nodes[i].process
                &&& after.nodes[i].flush == g.nodes[i].flush
            },
        forall|i: int|
            0 <= i < g.nodes.len() ==> (#[trigger] after.inputs[i]).len() == g.inputs[i].len(),
        forall|i: int|
            0 <= i < g.nodes.len() ==> (#[trigger] after.outputs[i]).len() == g.outputs[i].len(),
        forall|i: int, p: int|
            0 <= i < g.nodes.len() && 0 <= p < g.inputs[i].len() ==> (
            #[trigger] after.inputs[i][p]).samples.len() == g.inputs[i][p].samples.len(),
{
    crate::laws::lemma_cycle_keeps_graph(g, ctx, after, ctx_after);
    let a = g.cycle_state(ctx);
    let b = after.cycle_state(ctx_after);
    assert forall|i: int| 0 <= i < g.nodes.len() implies {
        &&& (#[trigger] after.nodes[i]).inputs == g.nodes[i].inputs
        &&& after.nodes[i].outputs == g.nodes[i].outputs
        &&& after.nodes[i].process == g.nodes[i].process
        &&& after.nodes[i].flush == g.nodes[i].flush
    } by {
        assert(crate::node::same_node(a.nodes[i], b.nodes[i]));
    }
    assert forall|i: int| 0 <= i < g.nodes.len() implies (#[trigger] after.inputs[i]).len()
        == g.inputs[i].len() by {
        assert(b.inputs[i].len() == a.inputs[i].len());
    }
    assert forall|i: int| 0 <= i < g.nodes.len() implies (#[trigger] after.outputs[i]).len()
        == g.outputs[i].len() by {
        assert(b.outputs[i].len() == a.outputs[i].len());
    }
    assert forall|i: int, p: int|
        0 <= i < g.nodes.len() && 0 <= p < g.inputs[i].len() implies (
    #[trigger] after.inputs[i][p]).samples.len() == g.inputs[i][p].samples.len() by {
        assert(b.inputs[i][p].samples.len() == a.inputs[i][p].samples.len());
    }
}

/// A cycle passes the context from node to node in the processing order, and lets each node of the
/// order process once: the node gets the context as the one before it left it, the frames that are
/// at its inputs when the cycle is over, and its own outputs as they were before the cycle. A
/// node that is not in the order stays as it is, and so do its frames.
pub proof fn lemma_nodes_process_once_in_turn(
    g: GraphView,
    ctx: ProcessContext,
    after: GraphView,
    ctx_after: ProcessContext,
)
    requires
        g.wf(),
        g.order.no_duplicates(),
        crate::graph::cycle_outcome(g, ctx, Ok(()), after, ctx_after),
    ensures
        exists|ctxs: Seq<ProcessContext>|
            {
                &&& ctxs.len() == g.order.len() + 1
                &&& ctxs[0] == ctx
                &&& ctxs[g.order.len() as int] == ctx_after
                &&& forall|at: int|
                    0 <= at < g.order.len() ==> (g.nodes[g.order[at] as int].process)(
                        g.nodes[g.order[at] as int].state,
                        (Exchange {
                            ctx: #[trigger] ctxs[at],
                            ins: after.inputs[g.order[at] as int],
                            outs: g.outputs[g.order[at] as int],
                            ctx_after: ctxs[at + 1],
                            outs_after: after.outputs[g.order[at] as int],
                        }),
                        after.nodes[g.order[at] as int].state,
                    )
            },
        forall|n: int|
            0 <= n < g.nodes.len() && !g.order.contains(n as NodeId) ==> {
                &&& #[trigger] after.nodes[n] == g.nodes[n]
                &&& after.inputs[n] == g.inputs[n]
                &&& after.outputs[n] == g.outputs[n]
            },
{
    let a = g.cycle_state(ctx);
    let b = after.cycle_state(ctx_after);
    let trace = choose|trace: Seq<CycleState>| #[trigger]
        crate::cycle::is_trace(g.edges, g.order, trace) && trace[0] == a && trace.last() == b;
    let ctxs = Seq::new(trace.len(), |k: int| trace[k].ctx);
    assert forall|at: int| 0 <= at < g.order.len() implies (g.nodes[g.order[at] as int].process)(
        g.nodes[g.order[at] as int].state,
        Exchange {
            ctx: #[trigger] ctxs[at],
            ins: after.inputs[g.order[at] as int],
            outs: g.outputs[g.order[at] as int],
            ctx_after: ctxs[at + 1],
            outs_after: after.outputs[g.order[at] as int],
        },
        after.nodes[g.order[at] as int].state,
    ) by {
        crate::cycle::lemma_step_of(g.edges, g.order, trace, at);
    }
    assert(ctxs[0] == ctx && ctxs[g.order.len() as int] == ctx_after);
    assert forall|n: int|
        0 <= n < g.nodes.len() && !g.order.contains(n as NodeId) implies #[trigger] after.nodes[n]
        == g.nodes[n] && after.inputs[n] == g.inputs[n] && after.outputs[n] == g.outputs[n] by {
        crate::cycle::lemma_left_alone(g.edges, g.order, a, b, n as NodeId);
    }
}

/// `dst` is what the frame `was` becomes when `src` is copied into it: it has the channel count and
/// the sample rate of `src`, the length of `was`, and the samples of `src`, followed by those of
/// `was` where `src` has none.
pub open spec fn took_over(was: FrameView, src: FrameView, dst: FrameView) -> bool {
    &&& dst.channels == src.channels
    &&& dst.sample_rate == src.sample_rate
    &&& dst.samples.len() == was.samples.len()
    &&& forall|i: int|
        0 <= i < was.samples.len() && i < src.samples.len() ==> #[trigger] dst.samples[i]
            == src.samples[i]
    &&& forall|i: int|
        src.samples.len() <= i < was.samples.len() ==> #[trigger] dst.samples[i] == was.samples[i]
}

/// Whatever the order, the first link to an input port brings it what is at the other end of the
/// link: at the end of the cycle, if the node there comes earlier in the order, and otherwise before
/// the cycle. Other links to the same port, and links to other ports, bring it nothing. A link from
/// a port without a frame leaves the input as it was.
pub proof fn lemma_input_gets_what_its_link_brings(
    g: GraphView,
    ctx: ProcessContext,
    after: GraphView,
    ctx_after: ProcessContext,
    k: int,
    at: int,
)
    requires
        g.wf(),
        g.order.no_duplicates(),
        crate::graph::cycle_outcome(g, ctx, Ok(()), after, ctx_after),
        0 <= k < g.edges.len(),
        forall|j: int|
            0 <= j < k ==> !((#[trigger] g.edges[j]).to.0 == g.edges[k].to.0 && g.edges[j].to.1
                == g.edges[k].to.1),
        0 <= at < g.order.len(),
        g.order[at] == g.edges[k].to.0,
        g.edges[k].to.1 < g.inputs[g.edges[k].to.0 as int].len(),
    ensures
        ({
            let (src_node, src_port) = g.edges[k].from;
            let (n, p) = g.edges[k].to;
            let was = g.inputs[n as int][p as int];
            let input = after.inputs[n as int][p as int];
            &&& src_port < g.outputs[src_node as int].len() ==> {
                &&& (exists|i: int| 0 <= i < at && g.order[i] == src_node) ==> took_over(
                    was,
                    after.outputs[src_node as int][src_port as int],
                    input,
                )
                &&& (forall|i: int| 0 <= i < at ==> g.order[i] != src_node) ==> took_over(
                    was,
                    g.outputs[src_node as int][src_port as int],
                    input,
                )
            }
            &&& src_port >= g.outputs[src_node as int].len() ==> input == was
        }),
{
    lemma_cycle_touches_only_frames_and_states(g, ctx, after, ctx_after);
    let a = g.cycle_state(ctx);
    let b = after.cycle_state(ctx_after);
    let trace = choose|trace: Seq<CycleState>| #[trigger]
        crate::cycle::is_trace(g.edges, g.order, trace) && trace[0] == a && trace.last() == b;
    crate::cycle::lemma_step_of(g.edges, g.order, trace, at);
    let (src_node, src_port) = g.edges[k].from;
    let (n, p) = g.edges[k].to;
    assert(crate::graph::link_refused(g.nodes, g.edges[k].from, g.edges[k].to) is None);
    assert(crate::cycle::first_link_to(g.edges, (n, p), k));
    crate::cycle::lemma_source_of(g.edges, (n, p), k);
    let met = trace[at].outputs[src_node as int];
    let input = after.inputs[n as int][p as int];
    assert(input == crate::cycle::filled_slot(
        g.edges,
        (n, p),
        g.inputs[n as int][p as int],
        trace[at].outputs,
    ));
    assert(after.outputs[src_node as int].len() == g.outputs[src_node as int].len());
    if exists|i: int| 0 <= i < at && g.order[i] == src_node {
        let i = choose|i: int| 0 <= i < at && g.order[i] == src_node;
        assert(trace[at].outputs[g.order[i] as int] == trace.last().outputs[g.order[i] as int]);
        assert(met == after.outputs[src_node as int]);
    } else {
        assert(met == g.outputs[src_node as int]);
    }
}

/// An input port that no link leads to is silent after a cycle: every sample is zero. The frame keeps
/// its size, its channel count and its sample rate.
pub proof fn lemma_input_without_link_is_silent(
    g: GraphView,
    ctx: ProcessContext,
    after: GraphView,
    ctx_after: ProcessContext,
    n: NodeId,
    p: PortIdx,
)
    requires
        g.wf(),
        g.order.no_duplicates(),
        g.order.contains(n),
        crate::graph::cycle_outcome(g, ctx, Ok(()), after, ctx_after),
        p < g.inputs[n as int].len(),
        forall|k: int|
            0 <= k < g.edges.len() ==> !((#[trigger] g.edges[k]).to.0 == n && g.edges[k].to.1 == p),
    ensures
        ({
            let was = g.inputs[n as int][p as int];
            let input = after.inputs[n as int][p as int];
            &&& input.samples.len() == was.samples.len()
            &&& forall|i: int| 0 <= i < was.samples.len() ==> #[trigger] input.samples[i] == 0
            &&& input.channels == was.channels
            &&& input.sample_rate == was.sample_rate
        }),
{
    let a = g.cycle_state(ctx);
    let b = after.cycle_state(ctx_after);
    let trace = choose|trace: Seq<CycleState>| #[trigger]
        crate::cycle::is_trace(g.edges, g.order, trace) && trace[0] == a && trace.last() == b;
    let at = choose|i: int| 0 <= i < g.order.len() && g.order[i] == n;
    crate::cycle::lemma_step_of(g.edges, g.order, trace, at);
    assert forall|k: int| !crate::cycle::first_link_to(g.edges, (n, p), k) by {}
    assert(after.inputs[n as int][p as int] == crate::cycle::filled_slot(
        g.edges,
        (n, p),
        g.inputs[n as int][p as int],
        trace[at].outputs,
    ));
}

/// The processing order names every node once, and the source of every link before its destination.
pub open spec fn dependencies_first(g: GraphView) -> bool {
    &&& g.order.len() == g.nodes.len()
    &&& g.order.no_duplicates()
    &&& forall|k: int, i: int, j: int|
        0 <= k < g.edges.len() && 0 <= i < g.order.len() && 0 <= j < g.order.len() && (
        #[trigger] g.edges[k]).from.0 == #[trigger] g.order[i] && g.edges[k].to.0
            == #[trigger] g.order[j] ==> i < j
}

/// After a cycle in dependency order, an input port holds what is at the other end of the first link
/// that leads to it, as that is when the cycle is over; if the two frames are of one size, it holds
/// it bit for bit.
pub proof fn lemma_linked_input_holds_its_source(
    g: GraphView,
    ctx: ProcessContext,
    after: GraphView,
    ctx_after: ProcessContext,
    k: int,
)
    requires
        g.wf(),
        dependencies_first(g),
        crate::graph::cycle_outcome(g, ctx, Ok(()), after, ctx_after),
        0 <= k < g.edges.len(),
        forall|j: int|
            0 <= j < k ==> !((#[trigger] g.edges[j]).to.0 == g.edges[k].to.0 && g.edges[j].to.1
                == g.edges[k].to.1),
        g.edges[k].to.1 < g.inputs[g.edges[k].to.0 as int].len(),
        g.edges[k].from.1 < g.outputs[g.edges[k].from.0 as int].len(),
    ensures
        ({
            let (src_node, src_port) = g.edges[k].from;
            let (n, p) = g.edges[k].to;
            let was = g.inputs[n as int][p as int];
            let source = after.outputs[src_node as int][src_port as int];
            let input = after.inputs[n as int][p as int];
            &&& took_over(was, source, input)
            &&& source.samples.len() == was.samples.len() ==> input == source
        }),
{
    assert(crate::graph::link_refused(g.nodes, g.edges[k].from, g.edges[k].to) is None);
    crate::topology::lemma_distinct_ids(g.order, g.nodes.len() as int);
    let (src_node, src_port) = g.edges[k].from;
    let (n, p) = g.edges[k].to;
    assert(g.order.contains(src_node) && g.order.contains(n));
    let at = choose|j: int| 0 <= j < g.order.len() && g.order[j] == n;
    let i = choose|i: int| 0 <= i < g.order.len() && g.order[i] == src_node;
    assert(g.edges[k].from.0 == g.order[i] && g.edges[k].to.0 == g.order[at]);
    assert(i < at);
    lemma_input_gets_what_its_link_brings(g, ctx, after, ctx_after, k, at);
    let source = after.outputs[src_node as int][src_port as int];
    let input = after.inputs[n as int][p as int];
    if source.samples.len() == g.inputs[n as int][p as int].samples.len() {
        assert(input =~= source);
    }
}

/// A link is made exactly if both nodes are in the graph, the first has an output port and the second
/// an input port of the given index, the first port is an output and the second an input, and the
/// two have the same number of channels and the same sample format. It is then the last link, known
/// by its position, and nothing but the subscribers has changed besides.
pub proof fn lemma_link_is_made_if_ports_fit(
    g: GraphView,
    from: (NodeId, PortIdx),
    to: (NodeId, PortIdx),
    r: Result<LinkId, GraphError>,
    after: GraphView,
)
    requires
        g.edges.len() <= usize::MAX,
        crate::graph::link_outcome(g, from, to, r, after),
    ensures
        r is Ok <==> {
            &&& from.0 < g.nodes.len()
            &&& to.0 < g.nodes.len()
            &&& from.1 < g.nodes[from.0 as int].outputs.len()
            &&& to.1 < g.nodes[to.0 as int].inputs.len()
            &&& g.nodes[from.0 as int].outputs[from.1 as int].direction is Output
            &&& g.nodes[to.0 as int].inputs[to.1 as int].direction is Input
            &&& g.nodes[from.0 as int].outputs[from.1 as int].channels
                == g.nodes[to.0 as int].inputs[to.1 as int].channels
            &&& g.nodes[from.0 as int].outputs[from.1 as int].sample_format
                == g.nodes[to.0 as int].inputs[to.1 as int].sample_format
        },
        r matches Ok(id) ==> {
            &&& id == g.edges.len()
            &&& after.edges.len() == g.edges.len() + 1
            &&& after.edges[id as int].from == from
            &&& after.edges[id as int].to == to
            &&& forall|k: int| 0 <= k < g.edges.len() ==> #[trigger] after.edges[k] == g.edges[k]
            &&& after == (GraphView { edges: after.edges, subscribers: after.subscribers, ..g })
            &&& crate::events::published(
                g.subscribers,
                EventView::LinkAdded(SnapshotEdge { from, to }),
                after.subscribers,
            )
        },
        r is Err ==> after == g,
{
}

/// Why a link is refused: the first of these that holds. The node of the output is missing, that of
/// the input is missing, the output port is missing, the input port is missing; the ports do not
/// lead from an output to an input; the ports differ in channel count or sample format.
pub proof fn lemma_link_error_names_the_first_fault(
    g: GraphView,
    from: (NodeId, PortIdx),
    to: (NodeId, PortIdx),
    r: Result<LinkId, GraphError>,
    after: GraphView,
)
    requires
        crate::graph::link_outcome(g, from, to, r, after),
    ensures
        from.0 >= g.nodes.len() ==> r == Err::<LinkId, GraphError>(
            GraphError::NodeNotFound(from.0),
        ),
        from.0 < g.nodes.len() && to.0 >= g.nodes.len() ==> r == Err::<LinkId, GraphError>(
            GraphError::NodeNotFound(to.0),
        ),
        from.0 < g.nodes.len() && to.0 < g.nodes.len() ==> {
            let outputs = g.nodes[from.0 as int].outputs;
            let inputs = g.nodes[to.0 as int].inputs;
            &&& from.1 >= outputs.len() ==> r == Err::<LinkId, GraphError>(
                GraphError::PortNotFound { node: from.0, port: from.1 },
            )
            &&& from.1 < outputs.len() && to.1 >= inputs.len() ==> r == Err::<LinkId, GraphError>(
                GraphError::PortNotFound { node: to.0, port: to.1 },
            )
            &&& from.1 < outputs.len() && to.1 < inputs.len() ==> {
                let output = outputs[from.1 as int];
                let input = inputs[to.1 as int];
                &&& output.direction is Input || input.direction is Output ==> r == Err::<
                    LinkId,
                    GraphError,
                >(GraphError::PortDirectionMismatch { from, to })
                &&& output.direction is Output && input.direction is Input && (output.channels
                    != input.channels || output.sample_format != input.sample_format) ==> r
                    == Err::<LinkId, GraphError>(GraphError::PortIncompatible { from, to })
            }
        },
{
}

/// Every link of a graph joins an output port and an input port of nodes of the graph, which have the
/// same number of channels and the same sample format.
pub proof fn lemma_links_join_ports_that_fit(g: GraphView, k: int)
    requires
        g.wf(),
        0 <= k < g.edges.len(),
    ensures
        ({
            let (src_node, src_port) = g.edges[k].from;
            let (n, p) = g.edges[k].to;
            let output = g.nodes[src_node as int].outputs[src_port as int];
            let input = g.nodes[n as int].inputs[p as int];
            &&& src_node < g.nodes.len()
            &&& n < g.nodes.len()
            &&& src_port < g.nodes[src_node as int].outputs.len()
            &&& p < g.nodes[n as int].inputs.len()
            &&& output.direction is Output
            &&& input.direction is Input
            &&& output.channels == input.channels
            &&& output.sample_format == input.sample_format
        }),
{
    assert(crate::graph::link_refused(g.nodes, g.edges[k].from, g.edges[k].to) is None);
}

/// A new graph holds nothing, and is not compiled.
pub proof fn lemma_new_graph_is_empty(g: GraphView)
    requires
        g == crate::graph::empty_graph(),
    ensures
        g.nodes.len() == 0,
        g.sinks.len() == 0,
        g.edges.len() == 0,
        g.order.len() == 0,
        g.inputs.len() == 0,
        g.outputs.len() == 0,
        g.subscribers.len() == 0,
        !g.compiled,
        g.config.num_frames == 0,
        g.config.sample_rate == 0,
        g.config.channels == 0,
{
}

/// A node that is added comes last, as a sink or not, and has no frames yet. Every other node keeps
/// its place, its state and its frames; links, order and configuration stay as they are, and a graph
/// that is compiled stays so.
pub proof fn lemma_new_node_comes_last(
    g: GraphView,
    node: NodeModel,
    sink: bool,
    after: GraphView,
)
    requires
        g.wf(),
        after == crate::graph::with_new_node(g, node, sink, after.subscribers),
    ensures
        after.nodes.len() == g.nodes.len() + 1,
        after.nodes[g.nodes.len() as int] == node,
        after.sinks[g.nodes.len() as int] == sink,
        after.inputs[g.nodes.len() as int].len() == 0,
        after.outputs[g.nodes.len() as int].len() == 0,
        forall|i: int|
            0 <= i < g.nodes.len() ==> {
                &&& #[trigger] after.nodes[i] == g.nodes[i]
                &&& after.sinks[i] == g.sinks[i]
                &&& after.inputs[i] == g.inputs[i]
                &&& after.outputs[i] == g.outputs[i]
            },
        after.sinks.len() == after.nodes.len(),
        after.inputs.len() == after.nodes.len(),
        after.outputs.len() == after.nodes.len(),
        after.edges == g.edges,
        after.order == g.order,
        after.config == g.config,
        after.compiled == g.compiled,
{
}

/// A frame that is fed to an output port is copied into the frame that is there, as far as that
/// reaches; no other frame changes, and nothing else does. Without a frame at that port, nothing
/// changes at all.
pub proof fn lemma_feed_reaches_one_frame(
    g: GraphView,
    node: NodeId,
    port: PortIdx,
    src: FrameView,
    after: GraphView,
)
    requires
        after == crate::graph::fed(g, node, port, src),
    ensures
        node < g.outputs.len() && port < g.outputs[node as int].len() ==> {
            &&& took_over(
                g.outputs[node as int][port as int],
                src,
                after.outputs[node as int][port as int],
            )
            &&& after.outputs.len() == g.outputs.len()
            &&& after.outputs[node as int].len() == g.outputs[node as int].len()
            &&& forall|i: int|
                0 <= i < g.outputs.len() && i != node ==> #[trigger] after.outputs[i]
                    == g.outputs[i]
            &&& forall|p: int|
                0 <= p < g.outputs[node as int].len() && p != port
                    ==> #[trigger] after.outputs[node as int][p] == g.outputs[node as int][p]
            &&& after == (GraphView { outputs: after.outputs, ..g })
        },
        node >= g.outputs.len() || port >= g.outputs[node as int].len() ==> after == g,
{
}

/// A port has a frame if its node has that many frames.
pub proof fn lemma_frame_is_there(slots: Seq<Seq<FrameView>>, node: NodeId, port: PortIdx)
    ensures
        crate::cycle::has_slot(slots, (node, port)) <==> node < slots.len() && port
            < slots[node as int].len(),
{
}

/// Compiling succeeds exactly if the graph is not compiled yet and no nodes hold each other up: no
/// nodes of which each is linked to from another of them. If it fails, it says why, and nothing has
/// changed. A cycle is reported by the nodes that hold each other up, all of them, by ascending id.
pub proof fn lemma_compile_fails_on_nodes_that_hold_each_other_up(
    g: GraphView,
    config: GraphConfig,
    r: Result<(), GraphError>,
    after: GraphView,
    held: Set<NodeId>,
    v: NodeId,
)
    requires
        g.wf(),
        crate::graph::compile_outcome(g, config, r, after),
    ensures
        g.compiled ==> r == Err::<(), GraphError>(GraphError::AlreadyCompiled),
        !g.compiled && crate::topology::hold_each_other_up(
            g.edges,
            g.nodes.len() as int,
            held,
        ) && held.contains(v) ==> (r matches Err(GraphError::CycleDetected { nodes })
            && nodes@.contains(v)),
        r matches Err(GraphError::CycleDetected { nodes }) ==> {
            &&& nodes@.len() > 0
            &&& crate::topology::hold_each_other_up(
                g.edges,
                g.nodes.len() as int,
                nodes@.to_set(),
            )
            &&& forall|i: int, j: int|
                0 <= i < j < nodes@.len() ==> #[trigger] nodes@[i] < #[trigger] nodes@[j]
        },
        r is Err ==> after == g && (r->Err_0 is AlreadyCompiled || r->Err_0 is CycleDetected),
        r is Ok ==> !g.compiled && after.compiled,
{
    let n = g.nodes.len() as int;
    crate::topology::lemma_cycle_means_nodes_hold_each_other_up(g.edges, n);
    match r {
        Err(GraphError::CycleDetected { nodes }) => {
            crate::topology::lemma_unordered_nodes_hold_each_other_up(g.edges, n, nodes@, held);
        },
        _ => {},
    }
}

/// A graph that was compiled processes every node once, each after all nodes that are linked to it,
/// and has one frame for every port: of the configured channel count, sample rate and length, with
/// every sample zero. The nodes and the links are as they were, and the subscribers are told.
pub proof fn lemma_compiled_graph_is_ready(
    g: GraphView,
    config: GraphConfig,
    after: GraphView,
)
    requires
        g.wf(),
        crate::graph::compile_outcome(g, config, Ok(()), after),
    ensures
        dependencies_first(after),
        after.compiled,
        after.config.num_frames == config.num_frames,
        after.config.sample_rate == config.sample_rate,
        after.config.channels == config.channels,
        after.nodes == g.nodes,
        after.sinks == g.sinks,
        after.edges == g.edges,
        after.inputs.len() == g.nodes.len(),
        after.outputs.len() == g.nodes.len(),
        forall|i: int|
            0 <= i < g.nodes.len() ==> (#[trigger] after.inputs[i]).len()
                == g.nodes[i].inputs.len(),
        forall|i: int|
            0 <= i < g.nodes.len() ==> (#[trigger] after.outputs[i]).len()
                == g.nodes[i].outputs.len(),
        forall|i: int, p: int|
            0 <= i < g.nodes.len() && 0 <= p < g.nodes[i].inputs.len() ==> is_silence(
                #[trigger] after.inputs[i][p],
                config.channels,
                config.sample_rate,
                config.channels * config.num_frames,
            ),
        forall|i: int, p: int|
            0 <= i < g.nodes.len() && 0 <= p < g.nodes[i].outputs.len() ==> is_silence(
                #[trigger] after.outputs[i][p],
                config.channels,
                config.sample_rate,
                config.channels * config.num_frames,
            ),
        crate::events::published(g.subscribers, EventView::GraphCompiled, after.subscribers),
{
    crate::topology::lemma_sources_come_first(after.order, g.nodes.len() as int, g.edges);
    assert(0 <= config.channels * config.num_frames) by (nonlinear_arith)
        requires
            0 <= config.channels,
            0 <= config.num_frames,
    ;
}

/// `frame` consists of `len` samples, all zero, and has the given channel count and sample rate.
pub open spec fn is_silence(frame: FrameView, channels: u16, sample_rate: u32, len: int) -> bool {
    &&& frame.channels == channels
    &&& frame.sample_rate == sample_rate
    &&& frame.samples.len() == len
    &&& forall|i: int| 0 <= i < len ==> #[trigger] frame.samples[i] == 0
}

/// The order that compiling finds breaks ties as
/// [`lemma_ties_are_broken_by_the_last_edge`](crate::topology::lemma_ties_are_broken_by_the_last_edge)
/// and [`lemma_nodes_without_edges_come_first`](crate::topology::lemma_nodes_without_edges_come_first)
/// say: here, of two nodes that nothing is linked to, the one with the lower id is processed first,
/// and both before any node that something is linked to.
pub proof fn lemma_nodes_without_links_are_processed_first(
    g: GraphView,
    config: GraphConfig,
    after: GraphView,
    p: int,
    q: int,
)
    requires
        g.wf(),
        crate::graph::compile_outcome(g, config, Ok(()), after),
        0 <= p < after.order.len(),
        0 <= q < after.order.len(),
        forall|k: int|
            0 <= k < g.edges.len() ==> (#[trigger] g.edges[k]).to.0 != after.order[p],
    ensures
        (exists|k: int| 0 <= k < g.edges.len() && (#[trigger] g.edges[k]).to.0 == after.order[q])
            ==> p < q,
        (forall|k: int| 0 <= k < g.edges.len() ==> (#[trigger] g.edges[k]).to.0 != after.order[q])
            && after.order[p] < after.order[q] ==> p < q,
{
    if exists|k: int| 0 <= k < g.edges.len() && (#[trigger] g.edges[k]).to.0 == after.order[q] {
        let k = choose|k: int|
            0 <= k < g.edges.len() && (#[trigger] g.edges[k]).to.0 == after.order[q];
        lemma_links_join_ports_that_fit(g, k);
    }
    crate::topology::lemma_nodes_without_edges_come_first(
        after.order,
        g.nodes.len() as int,
        g.edges,
        p,
        q,
    );
}

/// Flushing every sink flushes each of them once and leaves every other node alone. The error that
/// comes back is that of the sink with the lowest id that failed; there is none if none failed.
pub proof fn lemma_every_sink_is_flushed_once(
    nodes: Seq<NodeModel>,
    sinks: Seq<bool>,
    results: Seq<Result<(), FlushError>>,
    after: Seq<NodeModel>,
    first: Option<FlushError>,
)
    requires
        sinks.len() == nodes.len(),
        crate::graph::sinks_flushed(nodes, sinks, results, after),
        crate::graph::is_first_error(results, first),
    ensures
        after.len() == nodes.len(),
        forall|i: int|
            0 <= i < nodes.len() && !sinks[i] ==> #[trigger] after[i] == nodes[i],
        forall|i: int|
            0 <= i < nodes.len() && sinks[i] ==> {
                &&& (nodes[i].flush)(nodes[i].state, results[i], (#[trigger] after[i]).state)
                &&& after[i].inputs == nodes[i].inputs
                &&& after[i].outputs == nodes[i].outputs
                &&& after[i].process == nodes[i].process
                &&& after[i].flush == nodes[i].flush
            },
        first is None ==> forall|i: int|
            0 <= i < nodes.len() && sinks[i] ==> (#[trigger] results[i]) is Ok,
        first matches Some(e) ==> exists|i: int|
            {
                &&& 0 <= i < nodes.len()
                &&& sinks[i]
                &&& #[trigger] results[i] == Err::<(), FlushError>(e)
                &&& forall|j: int| 0 <= j < i && sinks[j] ==> (#[trigger] results[j]) is Ok
            },
{
    assert forall|i: int| 0 <= i < nodes.len() && !sinks[i] implies #[trigger] after[i]
        == nodes[i] by {
        assert(results[i] is Ok);
    }
    assert forall|i: int| 0 <= i < nodes.len() && sinks[i] implies {
        &&& (nodes[i].flush)(nodes[i].state, results[i], (#[trigger] after[i]).state)
        &&& after[i].inputs == nodes[i].inputs
        &&& after[i].outputs == nodes[i].outputs
        &&& after[i].process == nodes[i].process
        &&& after[i].flush == nodes[i].flush
    } by {
        assert(crate::node::may_flush(nodes[i], results[i], after[i]));
    }
}

/// Sinks are counted one by one: none in an empty list, and one more for every sink.
pub proof fn lemma_sinks_are_counted(sinks: Seq<bool>, sink: bool)
    ensures
        crate::graph::sink_count(Seq::empty()) == 0,
        crate::graph::sink_count(sinks.push(sink)) == crate::graph::sink_count(sinks) + if sink {
            1int
        } else {
            0int
        },
{
    reveal_with_fuel(Seq::filter, 2);
    assert(sinks.push(sink).drop_last() =~= sinks);
}

/// What a node may do in a cycle or a flush is up to its rules: it obeys them, keeps its ports and
/// rules, and leaves the number of its output frames as it is.
pub proof fn lemma_nodes_obey_their_rules(
    before: NodeModel,
    io: Exchange,
    r: Result<(), FlushError>,
    after: NodeModel,
)
    ensures
        crate::node::may_process(before, io, after) ==> (before.process)(
            before.state,
            io,
            after.state,
        ) && io.outs_after.len() == io.outs.len(),
        crate::node::may_flush(before, r, after) ==> (before.flush)(before.state, r, after.state),
        crate::node::may_process(before, io, after) || crate::node::may_flush(before, r, after)
            ==> after.inputs == before.inputs && after.outputs == before.outputs && after.process
            == before.process && after.flush == before.flush,
{
}

/// The snapshot of a node has its id and lists every input port and every output port of the node, in
/// the order in which the node has them: each entry says what its port says.
pub proof fn lemma_node_snapshot_lists_every_port(
    id: NodeId,
    node: NodeModel,
    ns: NodeSnapshotView,
)
    requires
        ns == crate::graph::node_snapshot(id, node),
    ensures
        ns.id == id,
        ns.inputs.len() == node.inputs.len(),
        ns.outputs.len() == node.outputs.len(),
        forall|i: int|
            0 <= i < node.inputs.len() ==> crate::topology_pub::describes(
                #[trigger] ns.inputs[i],
                node.inputs[i],
            ),
        forall|i: int|
            0 <= i < node.outputs.len() ==> crate::topology_pub::describes(
                #[trigger] ns.outputs[i],
                node.outputs[i],
            ),
{
}

/// The snapshot of a graph lists its nodes by id, each with every port, and its links, in the order
/// in which they were added.
pub proof fn lemma_snapshot_lists_nodes_and_links(g: GraphView, s: SnapshotView)
    requires
        g.wf(),
        s == g.topology(),
    ensures
        s.nodes.len() == g.nodes.len(),
        forall|n: int| 0 <= n < g.nodes.len() ==> (#[trigger] s.nodes[n]).id == n,
        forall|n: int|
            0 <= n < g.nodes.len() ==> (#[trigger] s.nodes[n]).inputs.len()
                == g.nodes[n].inputs.len() && s.nodes[n].outputs.len() == g.nodes[n].outputs.len(),
        forall|n: int, i: int|
            0 <= n < g.nodes.len() && 0 <= i < g.nodes[n].inputs.len()
                ==> crate::topology_pub::describes(
                #[trigger] s.nodes[n].inputs[i],
                g.nodes[n].inputs[i],
            ),
        forall|n: int, i: int|
            0 <= n < g.nodes.len() && 0 <= i < g.nodes[n].outputs.len()
                ==> crate::topology_pub::describes(
                #[trigger] s.nodes[n].outputs[i],
                g.nodes[n].outputs[i],
            ),
        s.edges.len() == g.edges.len(),
        forall|k: int|
            0 <= k < g.edges.len() ==> (#[trigger] s.edges[k]).from == g.edges[k].from
                && s.edges[k].to == g.edges[k].to,
{
}

/// Both ends of every edge of a graph's snapshot are ports that the snapshot lists: an output and an
/// input of the same channel count and sample format.
pub proof fn lemma_snapshot_lists_both_ends_of_every_edge(g: GraphView, s: SnapshotView, k: int)
    requires
        g.wf(),
        s == g.topology(),
        0 <= k < s.edges.len(),
    ensures
        ({
            let (src_node, src_port) = s.edges[k].from;
            let (n, p) = s.edges[k].to;
            let output = s.nodes[src_node as int].outputs[src_port as int];
            let input = s.nodes[n as int].inputs[p as int];
            &&& src_node < s.nodes.len()
            &&& n < s.nodes.len()
            &&& s.nodes[src_node as int].id == src_node
            &&& s.nodes[n as int].id == n
            &&& src_port < s.nodes[src_node as int].outputs.len()
            &&& p < s.nodes[n as int].inputs.len()
            &&& output.direction is Output
            &&& input.direction is Input
            &&& output.channels == input.channels
            &&& output.sample_format == input.sample_format
        }),
{
    lemma_links_join_ports_that_fit(g, k);
    lemma_snapshot_lists_nodes_and_links(g, s);
    let (src_node, src_port) = s.edges[k].from;
    let (n, p) = s.edges[k].to;
    assert(crate::topology_pub::describes(
        s.nodes[src_node as int].outputs[src_port as int],
        g.nodes[src_node as int].outputs[src_port as int],
    ));
    assert(crate::topology_pub::describes(
        s.nodes[n as int].inputs[p as int],
        g.nodes[n as int].inputs[p as int],
    ));
}

/// A graph that is built from a snapshot has the nodes that were supplied, in the order of the
/// snapshot, none of them a sink, and is not compiled; nobody listens to it. It has one link for each
/// edge of the snapshot, in their order: between the same ports of the nodes that stand in the
/// snapshot at the last places with the ids that the edge names.
pub proof fn lemma_built_graph_follows_the_snapshot(
    s: SnapshotView,
    supplied: Seq<NodeModel>,
    r: Result<crate::graph::Graph, GraphError>,
    k: int,
)
    requires
        s.nodes.len() <= usize::MAX,
        supplied.len() == s.nodes.len(),
        crate::graph::assembly(s, supplied, r),
        r is Ok,
    ensures
        r->Ok_0@.nodes == supplied,
        r->Ok_0@.sinks.len() == supplied.len(),
        forall|i: int| 0 <= i < supplied.len() ==> !#[trigger] r->Ok_0@.sinks[i],
        forall|i: int| 0 <= i < supplied.len() ==> (#[trigger] r->Ok_0@.inputs[i]).len() == 0,
        forall|i: int| 0 <= i < supplied.len() ==> (#[trigger] r->Ok_0@.outputs[i]).len() == 0,
        !r->Ok_0@.compiled,
        r->Ok_0@.order.len() == 0,
        r->Ok_0@.subscribers.len() == 0,
        r->Ok_0@.edges.len() == s.edges.len(),
        0 <= k < s.edges.len() ==> {
            let e = r->Ok_0@.edges[k];
            &&& is_last_place(s, s.edges[k].from.0, e.from.0 as int)
            &&& is_last_place(s, s.edges[k].to.0, e.to.0 as int)
            &&& e.from.1 == s.edges[k].from.1
            &&& e.to.1 == s.edges[k].to.1
        },
{
    if 0 <= k < s.edges.len() {
        assert(crate::graph::edge_refused(s.nodes, supplied, s.edges[k]) is None);
        lemma_placed(s, s.edges[k].from.0);
        lemma_placed(s, s.edges[k].to.0);
    }
}

/// `i` is the last place in the snapshot at which a node with the given id stands.
pub open spec fn is_last_place(s: SnapshotView, id: NodeId, i: int) -> bool {
    &&& 0 <= i < s.nodes.len()
    &&& s.nodes[i].id == id
    &&& forall|j: int| i < j < s.nodes.len() ==> (#[trigger] s.nodes[j]).id != id
}

proof fn lemma_placed(s: SnapshotView, id: NodeId)
    requires
        s.nodes.len() <= usize::MAX,
    ensures
        crate::graph::placed(s.nodes, id) matches Some(i) ==> is_last_place(s, id, i as int),
        crate::graph::placed(s.nodes, id) is None ==> forall|i: int|
            0 <= i < s.nodes.len() ==> (#[trigger] s.nodes[i]).id != id,
{
    if crate::graph::placed(s.nodes, id) is None {
        lemma_no_last_place(s, id, 0);
    } else {
        let i = choose|i: int| crate::graph::last_with_id(s.nodes, id, i);
        assert(crate::graph::last_with_id(s.nodes, id, i));
    }
}

proof fn lemma_no_last_place(s: SnapshotView, id: NodeId, from: int)
    requires
        forall|i: int| !crate::graph::last_with_id(s.nodes, id, i),
        0 <= from <= s.nodes.len(),
    ensures
        forall|i: int| from <= i < s.nodes.len() ==> (#[trigger] s.nodes[i]).id != id,
    decreases s.nodes.len() - from,
{
    if from < s.nodes.len() {
        lemma_no_last_place(s, id, from + 1);
        assert(!crate::graph::last_with_id(s.nodes, id, from));
    }
}

/// Building a graph from a snapshot fails on the first edge that cannot be linked, and only on one: if
/// a node with one of its ids is missing, with that id; otherwise with what linking says of the ports
/// of the nodes that were supplied.
pub proof fn lemma_building_fails_on_the_first_edge_that_cannot_be_linked(
    s: SnapshotView,
    supplied: Seq<NodeModel>,
    r: Result<crate::graph::Graph, GraphError>,
)
    requires
        s.nodes.len() <= usize::MAX,
        supplied.len() == s.nodes.len(),
        crate::graph::assembly(s, supplied, r),
    ensures
        r matches Err(e) ==> exists|k: int|
            {
                &&& 0 <= k < s.edges.len()
                &&& edge_fault(s, supplied, #[trigger] s.edges[k], e)
                &&& forall|j: int|
                    0 <= j < k ==> edge_links(s, supplied, #[trigger] s.edges[j])
            },
        r is Ok ==> forall|k: int|
            0 <= k < s.edges.len() ==> edge_links(s, supplied, #[trigger] s.edges[k]),
{
    assert forall|k: int| 0 <= k < s.edges.len() implies {
        &&& crate::graph::edge_refused(s.nodes, supplied, #[trigger] s.edges[k]) is None
            ==> edge_links(s, supplied, s.edges[k])
        &&& crate::graph::edge_refused(s.nodes, supplied, s.edges[k]) matches Some(e)
            ==> edge_fault(s, supplied, s.edges[k], e)
    } by {
        lemma_edge_links_or_not(s, supplied, s.edges[k]);
    }
}

proof fn lemma_edge_links_or_not(s: SnapshotView, supplied: Seq<NodeModel>, se: SnapshotEdge)
    requires
        s.nodes.len() <= usize::MAX,
        supplied.len() == s.nodes.len(),
    ensures
        crate::graph::edge_refused(s.nodes, supplied, se) is None ==> edge_links(s, supplied, se),
        crate::graph::edge_refused(s.nodes, supplied, se) matches Some(e) ==> edge_fault(
            s,
            supplied,
            se,
            e,
        ),
{
    lemma_placed(s, se.from.0);
    lemma_placed(s, se.to.0);
    if crate::graph::placed(s.nodes, se.from.0) is Some && crate::graph::placed(
        s.nodes,
        se.to.0,
    ) is Some {
        let src_node = crate::graph::placed(s.nodes, se.from.0)->0;
        let n = crate::graph::placed(s.nodes, se.to.0)->0;
        let edge = crate::graph::placed_edge(s.nodes, se);
        assert(edge.from == (src_node, se.from.1) && edge.to == (n, se.to.1));
        assert(is_last_place(s, se.from.0, src_node as int));
        assert(is_last_place(s, se.to.0, n as int));
    }
}

/// The edge names nodes of the snapshot, and the ports of the nodes that stand for them fit.
pub open spec fn edge_links(s: SnapshotView, supplied: Seq<NodeModel>, se: SnapshotEdge) -> bool {
    exists|src_node: int, n: int|
        {
            &&& #[trigger] is_last_place(s, se.from.0, src_node)
            &&& #[trigger] is_last_place(s, se.to.0, n)
            &&& se.from.1 < supplied[src_node].outputs.len()
            &&& se.to.1 < supplied[n].inputs.len()
            &&& supplied[src_node].outputs[se.from.1 as int].direction is Output
            &&& supplied[n].inputs[se.to.1 as int].direction is Input
            &&& supplied[src_node].outputs[se.from.1 as int].channels
                == supplied[n].inputs[se.to.1 as int].channels
            &&& supplied[src_node].outputs[se.from.1 as int].sample_format
                == supplied[n].inputs[se.to.1 as int].sample_format
        }
}

/// `e` says why the edge cannot be linked: a node is missing, the first end looked at first; or
/// else a port is missing, the direction is wrong or the ports differ.
pub open spec fn edge_fault(
    s: SnapshotView,
    supplied: Seq<NodeModel>,
    se: SnapshotEdge,
    e: GraphError,
) -> bool {
    if forall|i: int| 0 <= i < s.nodes.len() ==> (#[trigger] s.nodes[i]).id != se.from.0 {
        e == GraphError::NodeNotFound(se.from.0)
    } else if forall|i: int| 0 <= i < s.nodes.len() ==> (#[trigger] s.nodes[i]).id != se.to.0 {
        e == GraphError::NodeNotFound(se.to.0)
    } else {
        exists|src_node: NodeId, n: NodeId|
            {
                &&& #[trigger] is_last_place(s, se.from.0, src_node as int)
                &&& #[trigger] is_last_place(s, se.to.0, n as int)
                &&& ports_at_fault(supplied, (src_node, se.from.1), (n, se.to.1), e)
            }
    }
}

/// `e` says what is wrong with the ports of a link between two nodes that exist.
pub open spec fn ports_at_fault(
    nodes: Seq<NodeModel>,
    from: (NodeId, PortIdx),
    to: (NodeId, PortIdx),
    e: GraphError,
) -> bool {
    let outputs = nodes[from.0 as int].outputs;
    let inputs = nodes[to.0 as int].inputs;
    let output = outputs[from.1 as int];
    let input = inputs[to.1 as int];
    ||| from.1 >= outputs.len() && e == GraphError::PortNotFound { node: from.0, port: from.1 }
    ||| from.1 < outputs.len() && to.1 >= inputs.len() && e == GraphError::PortNotFound {
        node: to.0,
        port: to.1,
    }
    ||| from.1 < outputs.len() && to.1 < inputs.len() && (output.direction is Input
        || input.direction is Output) && e == GraphError::PortDirectionMismatch { from, to }
    ||| from.1 < outputs.len() && to.1 < inputs.len() && output.direction is Output
        && input.direction is Input && (output.channels != input.channels || output.sample_format
        != input.sample_format) && e == GraphError::PortIncompatible { from, to }
}

/// A factory is asked for the nodes of a snapshot by their ids, in their order, and once each, until
/// it supplies none; it is asked for all of them if it supplies all.
pub proof fn lemma_factory_is_asked_in_turn<F: FnMut(NodeId) -> Option<Box<dyn AudioNode>>>(
    factory: F,
    nodes: Seq<NodeSnapshotView>,
    asked: Seq<Option<Box<dyn AudioNode>>>,
)
    requires
        crate::graph::asked_in_turn(factory, nodes, asked),
    ensures
        forall|i: int|
            0 <= i < asked.len() ==> call_ensures(factory, (nodes[i].id,), #[trigger] asked[i]),
        forall|i: int| 0 <= i && i + 1 < asked.len() ==> (#[trigger] asked[i]) is Some,
        asked.len() <= nodes.len(),
        (forall|i: int| 0 <= i < asked.len() ==> (#[trigger] asked[i]) is Some) ==> asked.len()
            == nodes.len(),
{
    if forall|i: int| 0 <= i < asked.len() ==> (#[trigger] asked[i]) is Some {
        if asked.len() < nodes.len() {
            assert(asked[asked.len() - 1] is Some);
        }
    }
}

/// Of two nodes that something is linked to, the one whose last link is reached earlier is processed
/// earlier: links are reached in the processing order of the nodes that they come from, and those of
/// one node in the order in which they were added. Here link `k`, from the node at position `i`, is
/// the last one to lead to the node at position `p`, and link `l`, from that at position `j`, the
/// last one to lead to that at position `q`.
pub proof fn lemma_last_link_decides_when_a_node_is_processed(
    g: GraphView,
    config: GraphConfig,
    after: GraphView,
    p: int,
    i: int,
    k: int,
    q: int,
    j: int,
    l: int,
)
    requires
        g.wf(),
        crate::graph::compile_outcome(g, config, Ok(()), after),
        0 <= p < after.order.len(),
        0 <= i < after.order.len(),
        0 <= k < g.edges.len(),
        g.edges[k].from.0 == after.order[i],
        g.edges[k].to.0 == after.order[p],
        forall|m: int, x: int|
            0 <= m < g.edges.len() && 0 <= x < after.order.len() && (#[trigger] g.edges[m]).to.0
                == after.order[p] && g.edges[m].from.0 == #[trigger] after.order[x] ==> x < i || (x
                == i && m <= k),
        0 <= q < after.order.len(),
        0 <= j < after.order.len(),
        0 <= l < g.edges.len(),
        g.edges[l].from.0 == after.order[j],
        g.edges[l].to.0 == after.order[q],
        forall|m: int, x: int|
            0 <= m < g.edges.len() && 0 <= x < after.order.len() && (#[trigger] g.edges[m]).to.0
                == after.order[q] && g.edges[m].from.0 == #[trigger] after.order[x] ==> x < j || (x
                == j && m <= l),
    ensures
        i < j ==> p < q,
        i == j && k < l ==> p < q,
{
    crate::topology::lemma_ties_are_broken_by_the_last_edge(
        after.order,
        g.nodes.len() as int,
        g.edges,
        p,
        i,
        k,
        q,
        j,
        l,
    );
}

/// The frames of a graph are listed by node and port, all of them, and a slot shows the node that is
/// in it.
pub proof fn lemma_frames_are_listed_by_node_and_port(
    slots: Seq<Vec<AudioFrame>>,
    slot: NodeSlot,
    nodes: Seq<Box<dyn AudioNode>>,
)
    ensures
        crate::graph::slot_views(slots).len() == slots.len(),
        forall|n: int|
            0 <= n < slots.len() ==> (#[trigger] crate::graph::slot_views(slots)[n]).len()
                == slots[n]@.len(),
        forall|n: int, p: int|
            0 <= n < slots.len() && 0 <= p < slots[n]@.len()
                ==> #[trigger] crate::graph::slot_views(slots)[n][p] == slots[n]@[p]@,
        slot matches Slot::Plain(node) ==> crate::graph::slot_model(slot) == node.model(),
        slot matches Slot::Sink(sink) ==> crate::graph::slot_model(slot) == sink.sink_model(),
        crate::graph::node_models(nodes).len() == nodes.len(),
        forall|i: int|
            0 <= i < nodes.len() ==> #[trigger] crate::graph::node_models(nodes)[i]
                == nodes[i].model(),
{
}

} // verus!
