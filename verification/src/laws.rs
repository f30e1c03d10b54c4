//! What holds of a graph as a whole: across cycles, between its methods, and from one end of a
//! chain of nodes to the other.

use crate::error::GraphError;
use crate::events::SubscriberView;
use crate::flush::FlushError;
use crate::frame::FrameView;
use crate::graph::{GraphConfig, GraphView, NodeId, PortIdx};
use crate::node::{Exchange, NodeModel, NodeState, ProcessContext};
use crate::topology::Edge;
use crate::topology_pub::{EventView, MutationView, SnapshotView};
use vstd::prelude::*;

verus! {

/// A cycle changes nothing but the state of the nodes and the frames: the topology, the number of
/// frames and the size of the input frames stay as they are, and no subscriber is told of anything.
pub proof fn lemma_cycle_keeps_graph(
    g: GraphView,
    ctx: ProcessContext,
    after: GraphView,
    ctx_after: ProcessContext,
)
    requires
        g.wf(),
        crate::graph::cycle_run(g, ctx, after, ctx_after),
    ensures
        after.wf(),
        after.topology() == g.topology(),
        after == (GraphView {
            nodes: after.nodes,
            inputs: after.inputs,
            outputs: after.outputs,
            ..g
        }),
        crate::cycle::same_shape(g.cycle_state(ctx), after.cycle_state(ctx_after)),
{
    let a = g.cycle_state(ctx);
    let b = after.cycle_state(ctx_after);
    crate::cycle::lemma_cycle_keeps_shape(g.edges, g.order, a, b);
    lemma_same_ports(g.nodes, after.nodes, g.edges);
    assert(after.topology().nodes =~= g.topology().nodes) by {
        assert forall|i: int| 0 <= i < g.nodes.len() implies #[trigger] crate::graph::node_snapshot(
            i as NodeId,
            after.nodes[i],
        ) == crate::graph::node_snapshot(i as NodeId, g.nodes[i]) by {
            assert(crate::node::same_node(a.nodes[i], b.nodes[i]));
        }
    }
}

proof fn lemma_same_ports(nodes: Seq<NodeModel>, after: Seq<NodeModel>, edges: Seq<Edge>)
    requires
        after.len() == nodes.len(),
        forall|i: int|
            0 <= i < nodes.len() ==> crate::node::same_node(nodes[i], #[trigger] after[i]),
        crate::graph::links_fit(nodes, edges),
    ensures
        crate::graph::links_fit(after, edges),
{
    assert forall|k: int| 0 <= k < edges.len() implies crate::graph::link_refused(
        after,
        (#[trigger] edges[k]).from,
        edges[k].to,
    ) is None by {
        assert(crate::node::same_node(
            nodes[edges[k].from.0 as int],
            after[edges[k].from.0 as int],
        ));
        assert(crate::node::same_node(nodes[edges[k].to.0 as int], after[edges[k].to.0 as int]));
    }
}

/// After a cycle of a graph whose order is a dependency order, an input that nothing feeds is
/// silent, and an input that is fed mirrors the output that feeds it, as that output is at the end
/// of the cycle.
pub proof fn lemma_inputs_mirror_outputs(
    g: GraphView,
    ctx: ProcessContext,
    after: GraphView,
    ctx_after: ProcessContext,
    n: NodeId,
    p: PortIdx,
)
    requires
        g.wf(),
        g.in_order(),
        crate::graph::cycle_run(g, ctx, after, ctx_after),
        crate::cycle::has_slot(g.inputs, (n, p)),
    ensures
        crate::cycle::has_slot(after.inputs, (n, p)),
        match crate::cycle::source_of(g.edges, (n, p)) {
            None => after.inputs[n as int][p as int] == crate::frame::silenced(
                g.inputs[n as int][p as int],
            ),
            Some(from) => crate::cycle::has_slot(after.outputs, from)
                ==> after.inputs[n as int][p as int] == crate::frame::copied_over(
                g.inputs[n as int][p as int],
                after.outputs[from.0 as int][from.1 as int],
            ),
        },
{
    let a = g.cycle_state(ctx);
    let b = after.cycle_state(ctx_after);
    crate::cycle::lemma_cycle_keeps_shape(g.edges, g.order, a, b);
    crate::cycle::lemma_cycle_settles(g.edges, g.order, a, b, n);
}

/// In a cycle of a graph whose order is a dependency order, every node processes exactly once, on
/// the inputs that it ends with.
pub proof fn lemma_every_node_processes_once(
    g: GraphView,
    ctx: ProcessContext,
    after: GraphView,
    ctx_after: ProcessContext,
    n: NodeId,
)
    requires
        g.wf(),
        g.in_order(),
        crate::graph::cycle_run(g, ctx, after, ctx_after),
        n < g.nodes.len(),
    ensures
        exists|before: ProcessContext, then: ProcessContext| #[trigger]
            crate::node::may_process(
                g.nodes[n as int],
                (Exchange {
                    ctx: before,
                    ins: after.inputs[n as int],
                    outs: g.outputs[n as int],
                    ctx_after: then,
                    outs_after: after.outputs[n as int],
                }),
                after.nodes[n as int],
            ),
{
    crate::cycle::lemma_cycle_settles(
        g.edges,
        g.order,
        g.cycle_state(ctx),
        after.cycle_state(ctx_after),
        n,
    );
}

/// A compiled graph has a silent frame of the configured size at every port, so that both ends of
/// every link have one.
pub proof fn lemma_compiled_links_have_frames(
    g: GraphView,
    config: GraphConfig,
    after: GraphView,
    k: int,
)
    requires
        g.wf(),
        !g.compiled,
        !g.cyclic(),
        crate::graph::compile_outcome(g, config, Ok(()), after),
        0 <= k < g.edges.len(),
    ensures
        after.compiled,
        after.edges == g.edges,
        crate::cycle::has_slot(after.outputs, g.edges[k].from),
        crate::cycle::has_slot(after.inputs, g.edges[k].to),
        after.outputs[g.edges[k].from.0 as int][g.edges[k].from.1 as int]
            == crate::frame::silent_frame(config.channels, config.num_frames, config.sample_rate),
        after.inputs[g.edges[k].to.0 as int][g.edges[k].to.1 as int] == crate::frame::silent_frame(
            config.channels,
            config.num_frames,
            config.sample_rate,
        ),
{
    assert(crate::graph::link_refused(g.nodes, g.edges[k].from, g.edges[k].to) is None);
}

/// Compiling is deterministic: the links alone decide the order in which the nodes are processed.
pub proof fn lemma_compile_is_deterministic(
    g: GraphView,
    h: GraphView,
    config: GraphConfig,
    other: GraphConfig,
    compiled_g: GraphView,
    compiled_h: GraphView,
)
    requires
        g.wf(),
        h.wf(),
        !g.compiled,
        !h.compiled,
        !g.cyclic(),
        h.edges == g.edges,
        h.nodes.len() == g.nodes.len(),
        crate::graph::compile_outcome(g, config, Ok(()), compiled_g),
        crate::graph::compile_outcome(h, other, Ok(()), compiled_h),
    ensures
        compiled_g.order == compiled_h.order,
{
    crate::topology::lemma_release_order_unique(
        compiled_g.order,
        compiled_h.order,
        g.nodes.len() as int,
        g.edges,
    );
}

/// `after` comes out of one call of a method of `g`, and `event` is what subscribers are told of it,
/// if anything.
pub open spec fn one_call(g: GraphView, after: GraphView, event: Option<EventView>) -> bool {
    ||| exists|node: NodeModel, sink: bool| #[trigger] node_added(g, node, sink, after, event)
    ||| exists|edge: Edge| #[trigger] link_added(g, edge, after, event)
    ||| exists|config: GraphConfig, r: Result<(), GraphError>|
        {
            &&& #[trigger] crate::graph::compile_outcome(g, config, r, after)
            &&& event == if r is Ok {
                Some(EventView::GraphCompiled)
            } else {
                None
            }
        }
    ||| exists|ctx: ProcessContext, r: Result<(), GraphError>, ctx_after: ProcessContext|
        event is None && #[trigger] crate::graph::cycle_outcome(g, ctx, r, after, ctx_after)
    ||| exists|node: NodeId, port: PortIdx, src: FrameView|
        event is None && after == #[trigger] crate::graph::fed(g, node, port, src)
    ||| exists|results: Seq<Result<(), FlushError>>|
        {
            &&& event is None
            &&& after == (GraphView { nodes: after.nodes, ..g })
            &&& #[trigger] crate::graph::sinks_flushed(g.nodes, g.sinks, results, after.nodes)
        }
    ||| exists|n: NodeId, r: Result<(), FlushError>|
        event is None && #[trigger] sink_flushed(g, n, r, after)
    ||| exists|subscriber: SubscriberView|
        event is None && #[trigger] subscribed(g, subscriber, after)
    ||| event is None && after == g
}

/// `after` is `g` with one more node, and the subscribers were told of it.
pub open spec fn node_added(
    g: GraphView,
    node: NodeModel,
    sink: bool,
    after: GraphView,
    event: Option<EventView>,
) -> bool {
    let told = EventView::NodeAdded(
        crate::graph::node_snapshot(g.nodes.len() as NodeId, node),
    );
    &&& after == crate::graph::with_new_node(g, node, sink, after.subscribers)
    &&& event == Some(told)
    &&& crate::events::published(g.subscribers, told, after.subscribers)
}

/// `after` is `g` with one more link, which fits, and the subscribers were told of it.
pub open spec fn link_added(
    g: GraphView,
    edge: Edge,
    after: GraphView,
    event: Option<EventView>,
) -> bool {
    let told = EventView::LinkAdded(crate::graph::snapshot_edge(edge));
    &&& crate::graph::link_refused(g.nodes, edge.from, edge.to) is None
    &&& after == (GraphView {
        edges: g.edges.push(edge),
        subscribers: after.subscribers,
        ..g
    })
    &&& event == Some(told)
    &&& crate::events::published(g.subscribers, told, after.subscribers)
}

/// `after` is `g` with one more subscriber.
pub open spec fn subscribed(g: GraphView, subscriber: SubscriberView, after: GraphView) -> bool {
    after == (GraphView { subscribers: g.subscribers.push(subscriber), ..g })
}

/// `after` is `g` after the one sink `n` was flushed with the result `r`.
pub open spec fn sink_flushed(
    g: GraphView,
    n: NodeId,
    r: Result<(), FlushError>,
    after: GraphView,
) -> bool {
    &&& n < g.nodes.len()
    &&& crate::node::may_flush(g.nodes[n as int], r, after.nodes[n as int])
    &&& after == (GraphView {
        nodes: g.nodes.update(n as int, after.nodes[n as int]),
        ..g
    })
}

/// Every node of `g` is still there under its id, with its ports and rules, as the kind of node
/// that it was; every link is still there under its id; and if `g` is compiled, so is `after`.
pub open spec fn extends(g: GraphView, after: GraphView) -> bool {
    &&& g.nodes.len() <= after.nodes.len()
    &&& forall|i: int|
        0 <= i < g.nodes.len() ==> crate::node::same_node(g.nodes[i], #[trigger] after.nodes[i])
    &&& forall|i: int| 0 <= i < g.nodes.len() ==> #[trigger] after.sinks[i] == g.sinks[i]
    &&& g.edges.len() <= after.edges.len()
    &&& forall|k: int| 0 <= k < g.edges.len() ==> #[trigger] after.edges[k] == g.edges[k]
    &&& g.compiled ==> after.compiled && after.order == g.order && after.config == g.config
}

/// No call takes a node or a link away, changes an id or the ports of a node, or undoes compiling;
/// and every call keeps the graph well-formed.
pub proof fn lemma_every_call_extends(g: GraphView, after: GraphView, event: Option<EventView>)
    requires
        g.wf(),
        one_call(g, after, event),
        after.nodes.len() <= usize::MAX,
    ensures
        after.wf(),
        extends(g, after),
{
    if exists|node: NodeModel, sink: bool| #[trigger] node_added(g, node, sink, after, event) {
        assert forall|k: int| 0 <= k < g.edges.len() implies crate::graph::link_refused(
            after.nodes,
            (#[trigger] g.edges[k]).from,
            g.edges[k].to,
        ) is None by {
            let e = g.edges[k];
            assert(crate::graph::link_refused(g.nodes, e.from, e.to) is None);
            assert(after.nodes[e.from.0 as int] == g.nodes[e.from.0 as int]);
            assert(after.nodes[e.to.0 as int] == g.nodes[e.to.0 as int]);
        }
    } else if exists|edge: Edge| #[trigger] link_added(g, edge, after, event) {
        assert forall|k: int| 0 <= k < after.edges.len() implies crate::graph::link_refused(
            g.nodes,
            (#[trigger] after.edges[k]).from,
            after.edges[k].to,
        ) is None by {
            if k < g.edges.len() {
                assert(after.edges[k] == g.edges[k]);
            }
        }
    } else if exists|config: GraphConfig, r: Result<(), GraphError>| #[trigger]
        crate::graph::compile_outcome(g, config, r, after) {
    } else if exists|
        ctx: ProcessContext,
        r: Result<(), GraphError>,
        ctx_after: ProcessContext,
    | #[trigger] crate::graph::cycle_outcome(g, ctx, r, after, ctx_after) {
        let (ctx, r, ctx_after) = choose|
            ctx: ProcessContext,
            r: Result<(), GraphError>,
            ctx_after: ProcessContext,
        | #[trigger] crate::graph::cycle_outcome(g, ctx, r, after, ctx_after);
        if g.compiled {
            lemma_cycle_keeps_graph(g, ctx, after, ctx_after);
            let a = g.cycle_state(ctx);
            let b = after.cycle_state(ctx_after);
            assert forall|i: int| 0 <= i < g.nodes.len() implies crate::node::same_node(
                g.nodes[i],
                #[trigger] after.nodes[i],
            ) by {
                assert(crate::node::same_node(a.nodes[i], b.nodes[i]));
            }
        }
    } else if exists|node: NodeId, port: PortIdx, src: FrameView|
        after == #[trigger] crate::graph::fed(g, node, port, src) {
    } else if exists|results: Seq<Result<(), FlushError>>|
        after == (GraphView { nodes: after.nodes, ..g }) && #[trigger]
            crate::graph::sinks_flushed(g.nodes, g.sinks, results, after.nodes) {
        let results = choose|results: Seq<Result<(), FlushError>>| #[trigger]
            crate::graph::sinks_flushed(g.nodes, g.sinks, results, after.nodes);
        assert forall|i: int| 0 <= i < g.nodes.len() implies crate::node::same_node(
            g.nodes[i],
            #[trigger] after.nodes[i],
        ) by {
            assert(results[i] is Ok || results[i] is Err);
        }
        lemma_same_ports(g.nodes, after.nodes, g.edges);
    } else if exists|n: NodeId, r: Result<(), FlushError>| #[trigger]
        sink_flushed(g, n, r, after) {
        lemma_same_ports(g.nodes, after.nodes, g.edges);
    }
}

/// The events among what subscribers may be told of.
pub open spec fn events_of(told: Seq<Option<EventView>>) -> Seq<EventView>
    decreases told.len(),
{
    if told.len() == 0 {
        Seq::empty()
    } else {
        match told.last() {
            Some(event) => events_of(told.drop_last()).push(event),
            None => events_of(told.drop_last()),
        }
    }
}

/// `states` are those of a graph between calls of its methods, and `told` is what subscribers are
/// told of each call.
pub open spec fn is_history(states: Seq<GraphView>, told: Seq<Option<EventView>>) -> bool {
    &&& states.len() == told.len() + 1
    &&& forall|k: int|
        0 <= k < told.len() ==> one_call(states[k], states[k + 1], #[trigger] told[k])
}

/// A subscriber that never drops its receiver is told of every later change, in order and once each,
/// and of nothing else: a node or a link that is added and a graph that is compiled make one event
/// each; calls that fail, cycles, feeds and flushes make none. What other subscribers do makes no
/// difference.
pub proof fn lemma_live_subscriber_hears_everything(
    states: Seq<GraphView>,
    told: Seq<Option<EventView>>,
    i: int,
)
    requires
        is_history(states, told),
        0 <= i < states[0].subscribers.len(),
    ensures
        !crate::events::hung_up(states[0].subscribers[i].channel)
            ==> states.last().subscribers.contains(
            (SubscriberView {
                sent: states[0].subscribers[i].sent + events_of(told),
                ..states[0].subscribers[i]
            }),
        ),
    decreases told.len(),
{
    let first = states[0].subscribers[i];
    if told.len() == 0 {
        assert(first.sent + events_of(told) =~= first.sent);
        assert(states.last().subscribers[i] == first);
    } else if !crate::events::hung_up(first.channel) {
        let n = told.len() - 1;
        let earlier = told.drop_last();
        assert forall|k: int| 0 <= k < earlier.len() implies one_call(
            states.drop_last()[k],
            states.drop_last()[k + 1],
            #[trigger] earlier[k],
        ) by {
            assert(one_call(states[k], states[k + 1], told[k]));
        }
        lemma_live_subscriber_hears_everything(states.drop_last(), earlier, i);
        let g = states[n];
        let after = states[n + 1];
        let was = SubscriberView { sent: first.sent + events_of(earlier), ..first };
        assert(states.drop_last().last() == g);
        let k = choose|k: int| 0 <= k < g.subscribers.len() && g.subscribers[k] == was;
        assert(one_call(g, after, told[n]));
        lemma_call_tells(g, after, told[n], k);
        let now = SubscriberView { sent: first.sent + events_of(told), ..first };
        match told[n] {
            Some(event) => {
                assert(was.sent.push(event) =~= now.sent);
            },
            None => {},
        }
        assert(after.subscribers.contains(now));
    }
}

proof fn lemma_call_tells(g: GraphView, after: GraphView, event: Option<EventView>, i: int)
    requires
        one_call(g, after, event),
        0 <= i < g.subscribers.len(),
    ensures
        !crate::events::hung_up(g.subscribers[i].channel) ==> after.subscribers.contains(
            match event {
                Some(e) => crate::events::told(g.subscribers[i], e),
                None => g.subscribers[i],
            },
        ),
{
    match event {
        Some(e) => {
            crate::events::lemma_live_subscriber_is_told(
                g.subscribers,
                e,
                after.subscribers,
                i,
            );
        },
        None => {
            assert(after.subscribers[i] == g.subscribers[i]);
        },
    }
}

/// A frame that is fed to an output port of its size reads back whole, and no other frame changes.
pub proof fn lemma_feed_reads_back(
    g: GraphView,
    node: NodeId,
    port: PortIdx,
    src: FrameView,
    other: (NodeId, PortIdx),
)
    requires
        crate::cycle::has_slot(g.outputs, (node, port)),
    ensures
        ({
            let after = crate::graph::fed(g, node, port, src);
            &&& crate::cycle::has_slot(after.outputs, (node, port))
            &&& g.outputs[node as int][port as int].samples.len() == src.samples.len()
                ==> after.outputs[node as int][port as int] == src
            &&& crate::cycle::has_slot(g.outputs, other) && other != (node, port)
                ==> crate::cycle::has_slot(after.outputs, other)
                && after.outputs[other.0 as int][other.1 as int]
                == g.outputs[other.0 as int][other.1 as int]
            &&& after == (GraphView { outputs: after.outputs, ..g })
        }),
{
    if g.outputs[node as int][port as int].samples.len() == src.samples.len() {
        crate::frame::lemma_copy_of_same_length(g.outputs[node as int][port as int], src);
    }
}

/// What an event says about a topology, as an edit of it. Being compiled or reset edits nothing.
pub open spec fn event_edit(e: EventView) -> Option<MutationView> {
    match e {
        EventView::NodeAdded(ns) => Some(MutationView::AddNode(ns)),
        EventView::NodeRemoved(id) => Some(MutationView::RemoveNode(id)),
        EventView::LinkAdded(se) => Some(MutationView::AddLink(se)),
        EventView::LinkRemoved(link) => Some(MutationView::RemoveLink(link)),
        EventView::GraphCompiled => None,
        EventView::GraphReset => None,
    }
}

/// A snapshot kept by someone who follows the events.
pub open spec fn followed(s: SnapshotView, e: EventView) -> SnapshotView {
    match event_edit(e) {
        Some(m) => crate::topology_pub::edited(s, m),
        None => s,
    }
}

/// The event that is sent when a node is added says exactly how the topology changed: whoever
/// follows the events keeps an exact snapshot.
pub proof fn lemma_node_event_is_exact(
    g: GraphView,
    node: NodeModel,
    sink: bool,
    subscribers: Seq<SubscriberView>,
    id: NodeId,
)
    requires
        g.wf(),
        id == g.nodes.len(),
    ensures
        crate::graph::with_new_node(g, node, sink, subscribers).topology() == followed(
            g.topology(),
            EventView::NodeAdded(crate::graph::node_snapshot(id, node)),
        ),
{
    let s = g.topology();
    let ns = crate::graph::node_snapshot(id, node);
    let after = crate::graph::with_new_node(g, node, sink, subscribers);
    assert forall|i: int| 0 <= i < s.nodes.len() implies (#[trigger] s.nodes[i]).id != id by {
        assert(s.nodes[i].id == i as NodeId);
    }
    assert(!crate::topology_pub::has_id(s.nodes, id));
    assert(after.topology().nodes =~= s.nodes.push(ns));
    assert(after.topology().edges =~= s.edges);
}

/// The event that is sent when a link is added says exactly how the topology changed.
pub proof fn lemma_link_event_is_exact(g: GraphView, after: GraphView, edge: Edge)
    requires
        g.wf(),
        after.nodes == g.nodes,
        after.edges == g.edges.push(edge),
    ensures
        after.topology() == followed(
            g.topology(),
            EventView::LinkAdded(crate::graph::snapshot_edge(edge)),
        ),
{
    assert(after.topology().edges =~= g.topology().edges.push(crate::graph::snapshot_edge(edge)));
}

/// The event that is sent when a graph is compiled says exactly how the topology changed: not at
/// all.
pub proof fn lemma_compile_event_is_exact(
    g: GraphView,
    config: GraphConfig,
    r: Result<(), GraphError>,
    after: GraphView,
)
    requires
        crate::graph::compile_outcome(g, config, r, after),
    ensures
        after.topology() == followed(g.topology(), EventView::GraphCompiled),
{
}

/// The nodes of a graph's snapshot have unique ids, and every edge joins two of them.
pub proof fn lemma_graph_snapshot_is_sound(g: GraphView)
    requires
        g.wf(),
    ensures
        crate::topology_pub::unique_ids(g.topology().nodes),
        crate::topology_pub::no_dangling(g.topology()),
{
    let s = g.topology();
    assert forall|k: int| 0 <= k < s.edges.len() implies crate::topology_pub::has_id(
        s.nodes,
        (#[trigger] s.edges[k]).from.0,
    ) && crate::topology_pub::has_id(s.nodes, s.edges[k].to.0) by {
        let e = g.edges[k];
        assert(crate::graph::link_refused(g.nodes, e.from, e.to) is None);
        assert(s.nodes[e.from.0 as int].id == e.from.0);
        assert(s.nodes[e.to.0 as int].id == e.to.0);
    }
}

/// A graph that is rebuilt from a snapshot of another, with nodes that have the same ports, is
/// never refused, and it has the same topology.
pub proof fn lemma_rebuilt_graph_has_same_topology(
    g: GraphView,
    supplied: Seq<NodeModel>,
    r: Result<crate::graph::Graph, GraphError>,
)
    requires
        g.wf(),
        supplied.len() == g.nodes.len(),
        forall|i: int|
            0 <= i < supplied.len() ==> (#[trigger] supplied[i]).inputs == g.nodes[i].inputs
                && supplied[i].outputs == g.nodes[i].outputs,
        crate::graph::assembly(g.topology(), supplied, r),
    ensures
        r is Ok,
        r->Ok_0@.topology() == g.topology(),
{
    let s = g.topology();
    assert forall|k: int| 0 <= k < s.edges.len() implies crate::graph::edge_refused(
        s.nodes,
        supplied,
        #[trigger] s.edges[k],
    ) is None && crate::graph::placed_edge(s.nodes, s.edges[k]) == g.edges[k] by {
        let e = g.edges[k];
        assert(crate::graph::link_refused(g.nodes, e.from, e.to) is None);
        lemma_own_place(g, e.from.0);
        lemma_own_place(g, e.to.0);
        assert(supplied[e.from.0 as int].outputs == g.nodes[e.from.0 as int].outputs);
        assert(supplied[e.to.0 as int].inputs == g.nodes[e.to.0 as int].inputs);
    }
    assert(r is Ok);
    let rebuilt = r->Ok_0@;
    assert(crate::graph::placed_edges(s) =~= g.edges);
    assert(rebuilt.topology().nodes =~= s.nodes);
    assert(rebuilt.topology().edges =~= s.edges);
}

proof fn lemma_own_place(g: GraphView, id: NodeId)
    requires
        g.wf(),
        id < g.nodes.len(),
    ensures
        crate::graph::placed(g.topology().nodes, id) == Some(id),
{
    let nodes = g.topology().nodes;
    assert(crate::graph::last_with_id(nodes, id, id as int));
    let i = choose|i: int| crate::graph::last_with_id(nodes, id, i);
    assert(nodes[i].id == i as NodeId);
}

/// The node leaves its output frames as they are, like a source that is only ever fed.
#[verifier::opaque]
pub open spec fn idles(node: NodeModel) -> bool {
    forall|s: NodeState, io: Exchange, t: NodeState| #[trigger]
        (node.process)(s, io, t) ==> io.outs_after == io.outs
}

/// The node copies the samples of its first input to its first output, as far as both reach.
#[verifier::opaque]
pub open spec fn passes_through(node: NodeModel) -> bool {
    forall|s: NodeState, io: Exchange, t: NodeState| #[trigger]
        (node.process)(s, io, t) && io.ins.len() > 0 && io.outs.len() > 0
            ==> io.outs_after[0].samples == crate::frame::copied_over(
            io.outs[0],
            io.ins[0],
        ).samples
}

/// `chain` starts at a node that idles and goes on along links from first output to first input,
/// through nodes that pass their input through; every frame on the way has `size` samples.
pub open spec fn is_pass_chain(g: GraphView, chain: Seq<NodeId>, size: nat) -> bool {
    &&& chain.len() > 0
    &&& idles(g.nodes[chain[0] as int])
    &&& forall|i: int|
        0 <= i < chain.len() ==> {
            &&& #[trigger] chain[i] < g.nodes.len()
            &&& crate::cycle::has_slot(g.outputs, (chain[i], 0))
            &&& g.outputs[chain[i] as int][0].samples.len() == size
        }
    &&& forall|i: int|
        0 < i < chain.len() ==> {
            &&& passes_through(g.nodes[#[trigger] chain[i] as int])
            &&& crate::cycle::has_slot(g.inputs, (chain[i], 0))
            &&& g.inputs[chain[i] as int][0].samples.len() == size
            &&& crate::cycle::source_of(g.edges, (chain[i], 0)) == Some((chain[i - 1], 0usize))
        }
}

/// A node that idles has the same outputs after a cycle as before.
pub proof fn lemma_idle_outputs_stay(
    g: GraphView,
    ctx: ProcessContext,
    after: GraphView,
    ctx_after: ProcessContext,
    n: NodeId,
)
    requires
        g.wf(),
        g.in_order(),
        crate::graph::cycle_run(g, ctx, after, ctx_after),
        n < g.nodes.len(),
        idles(g.nodes[n as int]),
    ensures
        after.outputs[n as int] == g.outputs[n as int],
{
    reveal(idles);
    lemma_every_node_processes_once(g, ctx, after, ctx_after, n);
    let (before, then) = choose|before: ProcessContext, then: ProcessContext| #[trigger]
        crate::node::may_process(
            g.nodes[n as int],
            Exchange {
                ctx: before,
                ins: after.inputs[n as int],
                outs: g.outputs[n as int],
                ctx_after: then,
                outs_after: after.outputs[n as int],
            },
            after.nodes[n as int],
        );
    assert((g.nodes[n as int].process)(
        g.nodes[n as int].state,
        Exchange {
            ctx: before,
            ins: after.inputs[n as int],
            outs: g.outputs[n as int],
            ctx_after: then,
            outs_after: after.outputs[n as int],
        },
        after.nodes[n as int].state,
    ));
}

/// One cycle carries the samples at the start of a chain to the output of every node of the chain,
/// bit for bit, and leaves the chain ready for the next cycle.
pub proof fn lemma_chain_preserves_signal(
    g: GraphView,
    ctx: ProcessContext,
    after: GraphView,
    ctx_after: ProcessContext,
    chain: Seq<NodeId>,
    size: nat,
)
    requires
        g.wf(),
        g.in_order(),
        crate::graph::cycle_run(g, ctx, after, ctx_after),
        is_pass_chain(g, chain, size),
    ensures
        is_pass_chain(after, chain, size),
        forall|i: int|
            0 <= i < chain.len() ==> after.outputs[#[trigger] chain[i] as int][0].samples
                == g.outputs[chain[0] as int][0].samples,
{
    lemma_cycle_keeps_graph(g, ctx, after, ctx_after);
    let a = g.cycle_state(ctx);
    let b = after.cycle_state(ctx_after);
    assert forall|i: int| 0 <= i < chain.len() implies after.outputs[#[trigger] chain[i] as int][0].samples
        == g.outputs[chain[0] as int][0].samples by {
        lemma_chain_up_to(g, ctx, after, ctx_after, chain, size, i);
    }
    assert forall|i: int| 0 <= i < chain.len() implies {
        &&& #[trigger] chain[i] < after.nodes.len()
        &&& crate::cycle::has_slot(after.outputs, (chain[i], 0))
        &&& after.outputs[chain[i] as int][0].samples.len() == size
    } by {
        assert(b.outputs[chain[i] as int].len() == a.outputs[chain[i] as int].len());
    }
    assert(idles(after.nodes[chain[0] as int])) by {
        assert(crate::node::same_node(a.nodes[chain[0] as int], b.nodes[chain[0] as int]));
        reveal(idles);
    }
    assert forall|i: int| 0 < i < chain.len() implies {
        &&& passes_through(after.nodes[#[trigger] chain[i] as int])
        &&& crate::cycle::has_slot(after.inputs, (chain[i], 0))
        &&& after.inputs[chain[i] as int][0].samples.len() == size
    } by {
        let n = chain[i] as int;
        assert(passes_through(g.nodes[chain[i] as int]));
        assert(passes_through(b.nodes[n])) by {
            assert(crate::node::same_node(a.nodes[n], b.nodes[n]));
            reveal(passes_through);
        }
        assert(b.inputs[n].len() == a.inputs[n].len());
        assert(b.inputs[n][0].samples.len() == a.inputs[n][0].samples.len());
    }
}

proof fn lemma_chain_up_to(
    g: GraphView,
    ctx: ProcessContext,
    after: GraphView,
    ctx_after: ProcessContext,
    chain: Seq<NodeId>,
    size: nat,
    i: int,
)
    requires
        g.wf(),
        g.in_order(),
        crate::graph::cycle_run(g, ctx, after, ctx_after),
        is_pass_chain(g, chain, size),
        0 <= i < chain.len(),
    ensures
        after.outputs[chain[i] as int][0].samples == g.outputs[chain[0] as int][0].samples,
    decreases i,
{
    let a = g.cycle_state(ctx);
    let b = after.cycle_state(ctx_after);
    let n = chain[i];
    if i == 0 {
        lemma_idle_outputs_stay(g, ctx, after, ctx_after, n);
    } else {
        lemma_chain_up_to(g, ctx, after, ctx_after, chain, size, i - 1);
        crate::cycle::lemma_cycle_keeps_shape(g.edges, g.order, a, b);
        let upstream = chain[i - 1] as int;
        assert(b.outputs[upstream].len() == a.outputs[upstream].len());
        lemma_inputs_mirror_outputs(g, ctx, after, ctx_after, n, 0);
        crate::frame::lemma_copy_of_same_length(
            g.inputs[n as int][0],
            after.outputs[upstream][0],
        );
        lemma_every_node_processes_once(g, ctx, after, ctx_after, n);
        let (before, then) = choose|before: ProcessContext, then: ProcessContext| #[trigger]
            crate::node::may_process(
                g.nodes[n as int],
                Exchange {
                    ctx: before,
                    ins: after.inputs[n as int],
                    outs: g.outputs[n as int],
                    ctx_after: then,
                    outs_after: after.outputs[n as int],
                },
                after.nodes[n as int],
            );
        let io = Exchange {
            ctx: before,
            ins: after.inputs[n as int],
            outs: g.outputs[n as int],
            ctx_after: then,
            outs_after: after.outputs[n as int],
        };
        assert((g.nodes[n as int].process)(
            g.nodes[n as int].state,
            io,
            after.nodes[n as int].state,
        ));
        assert(passes_through(g.nodes[chain[i] as int]));
        reveal(passes_through);
        crate::frame::lemma_copy_of_same_length(io.outs[0], io.ins[0]);
    }
}

/// The node behaves as a [`RingSink`](crate::ring::RingSink) does.
pub open spec fn is_ring_sink(node: NodeModel) -> bool {
    &&& node.process == crate::ring::ring_sink_rule()
    &&& node.flush == crate::ring::ring_sink_flush_rule()
    &&& node.state.held.len() == 1
    &&& node.state.memory.len() == 2
}

/// After a cycle, a ring sink holds what reached its input; it has shipped nothing yet.
pub proof fn lemma_ring_sink_holds_input(
    g: GraphView,
    ctx: ProcessContext,
    after: GraphView,
    ctx_after: ProcessContext,
    n: NodeId,
)
    requires
        g.wf(),
        g.in_order(),
        crate::graph::cycle_run(g, ctx, after, ctx_after),
        is_ring_sink(g.nodes[n as int]),
        crate::cycle::has_slot(g.inputs, (n, 0)),
    ensures
        is_ring_sink(after.nodes[n as int]),
        after.nodes[n as int].state == (NodeState {
            held: seq![
                crate::frame::copied_over(
                    g.nodes[n as int].state.held[0],
                    after.inputs[n as int][0],
                ),
            ],
            ..g.nodes[n as int].state
        }),
{
    let a = g.cycle_state(ctx);
    let b = after.cycle_state(ctx_after);
    crate::cycle::lemma_cycle_keeps_shape(g.edges, g.order, a, b);
    assert(b.inputs[n as int].len() == a.inputs[n as int].len());
    assert(crate::node::same_node(a.nodes[n as int], b.nodes[n as int]));
    lemma_every_node_processes_once(g, ctx, after, ctx_after, n);
}

/// What is at an output reaches the far end of the ring: if that output feeds a ring sink, and the
/// frames on the way are of one size, then a cycle and a successful flush ship it bit for bit, as the
/// next frame that goes through the ring. The flush succeeds at least until as many frames were
/// shipped as the ring has room for, and as long as the reader takes frames out in time, and not into
/// a full ring whose oldest frame is never taken out; if it fails, it reports one dropped frame, and
/// nothing was shipped.
pub proof fn lemma_flush_ships_what_arrived(
    g: GraphView,
    ctx: ProcessContext,
    after: GraphView,
    ctx_after: ProcessContext,
    results: Seq<Result<(), FlushError>>,
    flushed: Seq<NodeModel>,
    from: (NodeId, PortIdx),
    n: NodeId,
)
    requires
        g.wf(),
        g.in_order(),
        crate::graph::cycle_run(g, ctx, after, ctx_after),
        crate::graph::sinks_flushed(after.nodes, after.sinks, results, flushed),
        crate::cycle::has_slot(g.inputs, (n, 0)),
        g.sinks[n as int],
        is_ring_sink(g.nodes[n as int]),
        crate::cycle::source_of(g.edges, (n, 0)) == Some(from),
        crate::cycle::has_slot(after.outputs, from),
        after.outputs[from.0 as int][from.1 as int].samples.len()
            == g.inputs[n as int][0].samples.len(),
        after.outputs[from.0 as int][from.1 as int].samples.len()
            == g.nodes[n as int].state.held[0].samples.len(),
    ensures
        ({
            let before = g.nodes[n as int].state;
            let then = flushed[n as int].state;
            let signal = after.outputs[from.0 as int][from.1 as int];
            &&& results[n as int] is Ok ==> then.shipped == before.shipped.push(signal)
                && crate::ring::nth_frame(before.memory[1], before.shipped.len() as int) == signal
                && crate::ring::room_made(
                before.memory[1],
                before.memory[0],
                before.shipped.len(),
            )
            &&& !crate::ring::may_be_full(
                before.memory[1],
                before.memory[0],
                before.shipped.len(),
            ) ==> results[n as int] is Ok
            &&& before.shipped.len() < before.memory[0] ==> results[n as int] is Ok
            &&& results[n as int] matches Err(e) ==> e == FlushError::RingFull(1) && then.shipped
                == before.shipped
            &&& then.held == seq![signal]
        }),
{
    lemma_cycle_keeps_graph(g, ctx, after, ctx_after);
    lemma_ring_sink_holds_input(g, ctx, after, ctx_after, n);
    lemma_inputs_mirror_outputs(g, ctx, after, ctx_after, n, 0);
    let signal = after.outputs[from.0 as int][from.1 as int];
    crate::frame::lemma_copy_of_same_length(g.inputs[n as int][0], signal);
    crate::frame::lemma_copy_of_same_length(g.nodes[n as int].state.held[0], signal);
    assert(crate::node::may_flush(
        after.nodes[n as int],
        results[n as int],
        flushed[n as int],
    ));
}

/// A signal that is fed to a source that idles survives a cycle and a successful flush bit for bit,
/// if the source feeds a ring sink and all frames are of its size: it is shipped, and it is what
/// the reader of the ring pops when its turn comes, unless the reader asks before the flush. The
/// flush succeeds if the ring is not full.
pub proof fn lemma_fed_signal_is_shipped(
    g: GraphView,
    source: (NodeId, PortIdx),
    signal: FrameView,
    ctx: ProcessContext,
    after: GraphView,
    ctx_after: ProcessContext,
    results: Seq<Result<(), FlushError>>,
    flushed: Seq<NodeModel>,
    n: NodeId,
)
    requires
        g.wf(),
        g.in_order(),
        crate::cycle::has_slot(g.outputs, source),
        crate::cycle::has_slot(g.inputs, (n, 0)),
        idles(g.nodes[source.0 as int]),
        g.sinks[n as int],
        is_ring_sink(g.nodes[n as int]),
        crate::cycle::source_of(g.edges, (n, 0)) == Some(source),
        g.outputs[source.0 as int][source.1 as int].samples.len() == signal.samples.len(),
        g.inputs[n as int][0].samples.len() == signal.samples.len(),
        g.nodes[n as int].state.held[0].samples.len() == signal.samples.len(),
        crate::graph::cycle_run(
            crate::graph::fed(g, source.0, source.1, signal),
            ctx,
            after,
            ctx_after,
        ),
        crate::graph::sinks_flushed(after.nodes, after.sinks, results, flushed),
    ensures
        results[n as int] is Ok ==> flushed[n as int].state.shipped
            == g.nodes[n as int].state.shipped.push(signal),
        !crate::ring::may_be_full(
            g.nodes[n as int].state.memory[1],
            g.nodes[n as int].state.memory[0],
            g.nodes[n as int].state.shipped.len(),
        ) ==> results[n as int] is Ok,
        forall|asked: Seq<Option<FrameView>>, popped: Option<FrameView>|
            results[n as int] is Ok && crate::ring::received(asked).len()
                == g.nodes[n as int].state.shipped.len() && #[trigger] crate::ring::may_pop(
                g.nodes[n as int].state.memory[1],
                asked,
                popped,
            ) && !crate::ring::asked_early(
                g.nodes[n as int].state.memory[1],
                g.nodes[n as int].state.shipped.len() as int,
            ) ==> popped == Some(signal),
{
    let seeded = crate::graph::fed(g, source.0, source.1, signal);
    lemma_feed_reads_back(g, source.0, source.1, signal, source);
    lemma_cycle_keeps_graph(seeded, ctx, after, ctx_after);
    assert(after.outputs.len() == seeded.outputs.len());
    lemma_idle_outputs_stay(seeded, ctx, after, ctx_after, source.0);
    lemma_flush_ships_what_arrived(
        seeded,
        ctx,
        after,
        ctx_after,
        results,
        flushed,
        source,
        n,
    );
}

/// A ring source that received a frame of its size puts it out whole, and holds it: as long as
/// nothing more arrives, it puts the same frame out again.
pub proof fn lemma_ring_source_holds_frame(
    s: NodeState,
    first: Exchange,
    t: NodeState,
    second: Exchange,
    u: NodeState,
    frame: FrameView,
)
    requires
        (crate::ring::ring_source_rule())(s, first, t),
        (crate::ring::ring_source_rule())(t, second, u),
        s.held.len() == 1,
        first.outs.len() == 1,
        second.outs == first.outs_after,
        t.asked == s.asked.push(Some(frame)),
        u.asked == t.asked.push(None),
        s.held[0].samples.len() == frame.samples.len(),
        first.outs[0].samples.len() == frame.samples.len(),
    ensures
        first.outs_after == seq![frame],
        t.held == seq![frame],
        second.outs_after == seq![frame],
        u.held == t.held,
{
    crate::frame::lemma_copy_of_same_length(s.held[0], frame);
    crate::frame::lemma_copy_of_same_length(first.outs[0], frame);
    crate::frame::lemma_copy_of_same_length(second.outs[0], frame);
    assert(t.asked.last() == Some(frame));
    assert(u.asked.last() is None);
    assert(first.outs_after =~= seq![frame]);
    assert(second.outs_after =~= seq![frame]);
}

} // verus!
