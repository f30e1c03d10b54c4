//! What one processing cycle does: the state that it works on, the step of a single node and the
//! whole pass, together with the laws that follow from the dependency order.

use crate::frame::FrameView;
use crate::graph::{NodeId, PortIdx};
use crate::node::{Exchange, NodeModel, ProcessContext};
use crate::topology::Edge;
use vstd::prelude::*;

verus! {

/// The state that a cycle works on.
#[verifier::ext_equal]
pub struct CycleState {
    /// The context of the cycle.
    pub ctx: ProcessContext,
    /// The nodes, by id.
    pub nodes: Seq<NodeModel>,
    /// The input slots, by node and port.
    pub inputs: Seq<Seq<FrameView>>,
    /// The output slots, by node and port.
    pub outputs: Seq<Seq<FrameView>>,
}

/// The state holds a list of input slots and one of output slots for every node.
pub open spec fn aligned(s: CycleState) -> bool {
    s.inputs.len() == s.nodes.len() && s.outputs.len() == s.nodes.len()
}

/// Edge `k` is the first one that leads to the input `to`.
pub open spec fn first_link_to(edges: Seq<Edge>, to: (NodeId, PortIdx), k: int) -> bool {
    &&& 0 <= k < edges.len()
    &&& edges[k].to == to
    &&& forall|j: int| 0 <= j < k ==> (#[trigger] edges[j]).to != to
}

/// The output that feeds the input `to`: the source of the first edge that leads there.
pub open spec fn source_of(edges: Seq<Edge>, to: (NodeId, PortIdx)) -> Option<(NodeId, PortIdx)> {
    if exists|k: int| first_link_to(edges, to, k) {
        Some(edges[choose|k: int| first_link_to(edges, to, k)].from)
    } else {
        None
    }
}

/// There is an output slot for the port `from`.
pub open spec fn has_slot(slots: Seq<Seq<FrameView>>, from: (NodeId, PortIdx)) -> bool {
    from.0 < slots.len() && from.1 < slots[from.0 as int].len()
}

/// What the input slot of the port `to` becomes when it is filled: a copy of the output that feeds
/// it, or silence if no edge leads there. An edge from a port without a slot leaves it as it is.
pub open spec fn filled_slot(
    edges: Seq<Edge>,
    to: (NodeId, PortIdx),
    slot: FrameView,
    outputs: Seq<Seq<FrameView>>,
) -> FrameView {
    match source_of(edges, to) {
        Some(from) => if has_slot(outputs, from) {
            crate::frame::copied_over(slot, outputs[from.0 as int][from.1 as int])
        } else {
            slot
        },
        None => crate::frame::silenced(slot),
    }
}

/// What the input slots of node `n` become when they are filled.
pub open spec fn filled_slots(
    edges: Seq<Edge>,
    n: NodeId,
    slots: Seq<FrameView>,
    outputs: Seq<Seq<FrameView>>,
) -> Seq<FrameView> {
    Seq::new(
        slots.len(),
        |p: int| filled_slot(edges, (n, p as PortIdx), slots[p], outputs),
    )
}

/// The step of node `n`: its inputs are filled, then it processes them. Everything that belongs
/// to other nodes stays as it is.
pub open spec fn node_step(edges: Seq<Edge>, n: NodeId, a: CycleState, b: CycleState) -> bool {
    let i = n as int;
    let ins = filled_slots(edges, n, a.inputs[i], a.outputs);
    &&& n < a.nodes.len()
    &&& b.inputs == a.inputs.update(i, ins)
    &&& b.outputs == a.outputs.update(i, b.outputs[i])
    &&& b.nodes == a.nodes.update(i, b.nodes[i])
    &&& crate::node::may_process(
        a.nodes[i],
        Exchange {
            ctx: a.ctx,
            ins,
            outs: a.outputs[i],
            ctx_after: b.ctx,
            outs_after: b.outputs[i],
        },
        b.nodes[i],
    )
}

/// `trace` lists the states of a pass over `order`: one before each node's step and one at the end.
pub open spec fn is_trace(edges: Seq<Edge>, order: Seq<NodeId>, trace: Seq<CycleState>) -> bool {
    &&& trace.len() == order.len() + 1
    &&& forall|k: int|
        0 <= k < order.len() ==> #[trigger] node_step(edges, order[k], trace[k], trace[k + 1])
}

/// A cycle over `order` may lead from state `a` to state `b`.
pub open spec fn cycle(edges: Seq<Edge>, order: Seq<NodeId>, a: CycleState, b: CycleState) -> bool {
    exists|trace: Seq<CycleState>| #[trigger]
        is_trace(edges, order, trace) && trace[0] == a && trace.last() == b
}

pub(crate) proof fn lemma_source_of(edges: Seq<Edge>, to: (NodeId, PortIdx), k: int)
    requires
        first_link_to(edges, to, k),
    ensures
        source_of(edges, to) == Some(edges[k].from),
{
    let j = choose|j: int| first_link_to(edges, to, j);
    if j < k {
        assert(edges[j].to != to);
    } else if k < j {
        assert(edges[k].to != to);
    }
}

/// A step keeps every node's ports and rules, the number of its slots and the size of its input
/// frames.
pub open spec fn same_shape(a: CycleState, b: CycleState) -> bool {
    &&& b.nodes.len() == a.nodes.len()
    &&& b.inputs.len() == a.inputs.len()
    &&& b.outputs.len() == a.outputs.len()
    &&& forall|i: int|
        0 <= i < a.nodes.len() ==> crate::node::same_node(a.nodes[i], #[trigger] b.nodes[i])
    &&& forall|i: int|
        0 <= i < a.inputs.len() ==> (#[trigger] b.inputs[i]).len() == a.inputs[i].len()
    &&& forall|i: int, p: int|
        0 <= i < a.inputs.len() && 0 <= p < a.inputs[i].len() ==> (
        #[trigger] b.inputs[i][p]).samples.len() == a.inputs[i][p].samples.len()
    &&& forall|i: int|
        0 <= i < a.outputs.len() ==> (#[trigger] b.outputs[i]).len() == a.outputs[i].len()
}

proof fn lemma_step_keeps_shape(edges: Seq<Edge>, n: NodeId, a: CycleState, b: CycleState)
    requires
        aligned(a),
        node_step(edges, n, a, b),
    ensures
        aligned(b),
        same_shape(a, b),
{
}

proof fn lemma_shape_chain(a: CycleState, b: CycleState, c: CycleState)
    requires
        same_shape(a, b),
        same_shape(b, c),
    ensures
        same_shape(a, c),
{
    assert forall|i: int| 0 <= i < a.nodes.len() implies crate::node::same_node(
        a.nodes[i],
        #[trigger] c.nodes[i],
    ) by {
        assert(crate::node::same_node(a.nodes[i], b.nodes[i]));
        assert(crate::node::same_node(b.nodes[i], c.nodes[i]));
    }
    assert forall|i: int| 0 <= i < a.inputs.len() implies (#[trigger] c.inputs[i]).len()
        == a.inputs[i].len() by {
        assert(b.inputs[i].len() == a.inputs[i].len());
    }
    assert forall|i: int, p: int|
        0 <= i < a.inputs.len() && 0 <= p < a.inputs[i].len() implies (
    #[trigger] c.inputs[i][p]).samples.len() == a.inputs[i][p].samples.len() by {
        assert(b.inputs[i].len() == a.inputs[i].len());
        assert(b.inputs[i][p].samples.len() == a.inputs[i][p].samples.len());
    }
    assert forall|i: int| 0 <= i < a.outputs.len() implies (#[trigger] c.outputs[i]).len()
        == a.outputs[i].len() by {
        assert(b.outputs[i].len() == a.outputs[i].len());
    }
}

proof fn lemma_trace_keeps_shape(
    edges: Seq<Edge>,
    order: Seq<NodeId>,
    trace: Seq<CycleState>,
    j: int,
    k: int,
)
    requires
        is_trace(edges, order, trace),
        aligned(trace[0]),
        0 <= j <= k < trace.len(),
    ensures
        aligned(trace[j]),
        aligned(trace[k]),
        same_shape(trace[j], trace[k]),
    decreases k,
{
    if k > 0 {
        lemma_trace_keeps_shape(edges, order, trace, 0, k - 1);
        assert(node_step(edges, order[k - 1], trace[k - 1], trace[k - 1 + 1]));
        lemma_step_keeps_shape(edges, order[k - 1], trace[k - 1], trace[k]);
        if j < k {
            lemma_trace_keeps_shape(edges, order, trace, j, k - 1);
            lemma_shape_chain(trace[j], trace[k - 1], trace[k]);
        }
    }
}

/// A cycle keeps every node's ports and rules, the number of its slots and the size of its input
/// frames.
pub proof fn lemma_cycle_keeps_shape(
    edges: Seq<Edge>,
    order: Seq<NodeId>,
    a: CycleState,
    b: CycleState,
)
    requires
        aligned(a),
        cycle(edges, order, a, b),
    ensures
        aligned(b),
        same_shape(a, b),
{
    let trace = choose|trace: Seq<CycleState>| #[trigger]
        is_trace(edges, order, trace) && trace[0] == a && trace.last() == b;
    lemma_trace_keeps_shape(edges, order, trace, 0, order.len() as int);
}

/// A stretch of a cycle in which node `n` has no step changes nothing that belongs to it.
proof fn lemma_untouched(
    edges: Seq<Edge>,
    order: Seq<NodeId>,
    trace: Seq<CycleState>,
    n: NodeId,
    j: int,
    k: int,
)
    requires
        is_trace(edges, order, trace),
        aligned(trace[0]),
        n < trace[0].nodes.len(),
        0 <= j <= k < trace.len(),
        forall|i: int| j <= i < k ==> #[trigger] order[i] != n,
    ensures
        trace[k].nodes[n as int] == trace[j].nodes[n as int],
        trace[k].inputs[n as int] == trace[j].inputs[n as int],
        trace[k].outputs[n as int] == trace[j].outputs[n as int],
    decreases k - j,
{
    if j < k {
        lemma_untouched(edges, order, trace, n, j, k - 1);
        lemma_trace_keeps_shape(edges, order, trace, 0, k - 1);
        assert(node_step(edges, order[k - 1], trace[k - 1], trace[k - 1 + 1]));
        assert(order[k - 1] != n);
    }
}

/// In a cycle whose order names no node twice, the node at position `at` processes the inputs that it
/// ends with. They are filled from outputs that have reached the end of the cycle where the node
/// that they belong to comes earlier in the order, and that are as they were before it otherwise.
pub(crate) proof fn lemma_step_of(
    edges: Seq<Edge>,
    order: Seq<NodeId>,
    trace: Seq<CycleState>,
    at: int,
)
    requires
        is_trace(edges, order, trace),
        aligned(trace[0]),
        order.no_duplicates(),
        0 <= at < order.len(),
    ensures
        order[at] < trace[0].nodes.len(),
        trace.last().inputs[order[at] as int] == filled_slots(
            edges,
            order[at],
            trace[0].inputs[order[at] as int],
            trace[at].outputs,
        ),
        crate::node::may_process(
            trace[0].nodes[order[at] as int],
            (Exchange {
                ctx: trace[at].ctx,
                ins: trace.last().inputs[order[at] as int],
                outs: trace[0].outputs[order[at] as int],
                ctx_after: trace[at + 1].ctx,
                outs_after: trace.last().outputs[order[at] as int],
            }),
            trace.last().nodes[order[at] as int],
        ),
        trace[at].outputs.len() == trace[0].outputs.len(),
        forall|i: int|
            0 <= i < at ==> trace[at].outputs[#[trigger] order[i] as int]
                == trace.last().outputs[order[i] as int],
        forall|u: NodeId|
            u < trace[0].nodes.len() && (forall|i: int| 0 <= i < at ==> order[i] != u)
                ==> #[trigger] trace[at].outputs[u as int] == trace[0].outputs[u as int],
{
    let n = order[at];
    let end = order.len() as int;
    assert(node_step(edges, order[at], trace[at], trace[at + 1]));
    lemma_trace_keeps_shape(edges, order, trace, 0, at);
    lemma_trace_keeps_shape(edges, order, trace, at, end);
    lemma_untouched(edges, order, trace, n, 0, at);
    lemma_untouched(edges, order, trace, n, at + 1, end);
    assert forall|i: int| 0 <= i < at implies trace[at].outputs[#[trigger] order[i] as int]
        == trace.last().outputs[order[i] as int] by {
        assert(node_step(edges, order[i], trace[i], trace[i + 1]));
        lemma_trace_keeps_shape(edges, order, trace, 0, i);
        lemma_untouched(edges, order, trace, order[i], at, end);
    }
    assert forall|u: NodeId|
        u < trace[0].nodes.len() && (forall|i: int| 0 <= i < at ==> order[i] != u) implies
        #[trigger] trace[at].outputs[u as int] == trace[0].outputs[u as int] by {
        lemma_untouched(edges, order, trace, u, 0, at);
    }
}

/// A cycle changes nothing that belongs to a node that its order does not name.
pub(crate) proof fn lemma_left_alone(
    edges: Seq<Edge>,
    order: Seq<NodeId>,
    a: CycleState,
    b: CycleState,
    n: NodeId,
)
    requires
        aligned(a),
        cycle(edges, order, a, b),
        n < a.nodes.len(),
        !order.contains(n),
    ensures
        b.nodes[n as int] == a.nodes[n as int],
        b.inputs[n as int] == a.inputs[n as int],
        b.outputs[n as int] == a.outputs[n as int],
{
    let trace = choose|trace: Seq<CycleState>| #[trigger]
        is_trace(edges, order, trace) && trace[0] == a && trace.last() == b;
    lemma_untouched(edges, order, trace, n, 0, order.len() as int);
}

/// Node `n` went through its one step of a cycle between `a` and `b`: it processed the inputs that
/// it ends with, which are filled from the outputs that the other nodes end with.
pub open spec fn settled(edges: Seq<Edge>, n: NodeId, a: CycleState, b: CycleState) -> bool {
    let i = n as int;
    &&& b.inputs[i] == filled_slots(edges, n, a.inputs[i], b.outputs)
    &&& exists|ctx: ProcessContext, ctx_after: ProcessContext| #[trigger]
        crate::node::may_process(
            a.nodes[i],
            Exchange {
                ctx,
                ins: b.inputs[i],
                outs: a.outputs[i],
                ctx_after,
                outs_after: b.outputs[i],
            },
            b.nodes[i],
        )
}

/// After a cycle in dependency order, every node has processed exactly once, and every input
/// mirrors the output that feeds it as it is at the end of the cycle, or is silent if nothing
/// feeds it: no node ever works on what its predecessors left behind in an earlier cycle.
pub proof fn lemma_cycle_settles(
    edges: Seq<Edge>,
    order: Seq<NodeId>,
    a: CycleState,
    b: CycleState,
    n: NodeId,
)
    requires
        aligned(a),
        a.nodes.len() <= usize::MAX,
        crate::topology::is_topological(order, a.nodes.len() as int, edges),
        cycle(edges, order, a, b),
        n < a.nodes.len(),
    ensures
        settled(edges, n, a, b),
{
    let num_nodes = a.nodes.len() as int;
    let end = order.len() as int;
    let trace = choose|trace: Seq<CycleState>| #[trigger]
        is_trace(edges, order, trace) && trace[0] == a && trace.last() == b;
    crate::topology::lemma_distinct_ids(order, num_nodes);
    assert(order.contains(n));
    let at = choose|i: int| 0 <= i < order.len() && order[i] == n;
    let before = trace[at];
    let after = trace[at + 1];
    lemma_untouched(edges, order, trace, n, 0, at);
    lemma_untouched(edges, order, trace, n, at + 1, end);
    assert(node_step(edges, order[at], trace[at], trace[at + 1]));
    lemma_trace_keeps_shape(edges, order, trace, 0, at);
    lemma_trace_keeps_shape(edges, order, trace, at, end);
    let i = n as int;
    let slots = a.inputs[i];
    assert forall|p: int| 0 <= p < slots.len() implies filled_slot(
        edges,
        (n, p as PortIdx),
        slots[p],
        before.outputs,
    ) == #[trigger] filled_slot(edges, (n, p as PortIdx), slots[p], b.outputs) by {
        let to = (n, p as PortIdx);
        match source_of(edges, to) {
            Some(from) => {
                let k = choose|k: int| first_link_to(edges, to, k);
                if from.0 < num_nodes {
                    assert(crate::topology::in_range(edges, num_nodes, k));
                    assert(crate::topology::feeds(edges, num_nodes, from.0, n));
                    assert(order.contains(from.0));
                    let earlier = choose|j: int| 0 <= j < order.len() && order[j] == from.0;
                    assert(crate::topology::feeds(edges, num_nodes, order[earlier], order[at]));
                    lemma_untouched(edges, order, trace, from.0, at, end);
                    assert(before.outputs[from.0 as int] == b.outputs[from.0 as int]);
                }
            },
            None => {},
        }
    }
    assert(b.inputs[i] =~= filled_slots(edges, n, slots, b.outputs));
    assert(crate::node::may_process(
        a.nodes[i],
        Exchange {
            ctx: before.ctx,
            ins: b.inputs[i],
            outs: a.outputs[i],
            ctx_after: after.ctx,
            outs_after: b.outputs[i],
        },
        b.nodes[i],
    ));
}

/// What the node does is determined by its state, the context and the frames that it is given.
#[verifier::opaque]
pub open spec fn deterministic(node: NodeModel) -> bool {
    forall|
        s: crate::node::NodeState,
        io: Exchange,
        t: crate::node::NodeState,
        io2: Exchange,
        t2: crate::node::NodeState,
    | #[trigger]
        (node.process)(s, io, t) && #[trigger] (node.process)(s, io2, t2) && io.ctx == io2.ctx
            && io.ins == io2.ins && io.outs == io2.outs ==> t == t2 && io.ctx_after
            == io2.ctx_after && io.outs_after == io2.outs_after
}

proof fn lemma_step_deterministic(
    edges: Seq<Edge>,
    n: NodeId,
    a: CycleState,
    b: CycleState,
    c: CycleState,
)
    requires
        node_step(edges, n, a, b),
        node_step(edges, n, a, c),
        deterministic(a.nodes[n as int]),
    ensures
        b == c,
{
    reveal(deterministic);
    let i = n as int;
    let ins = filled_slots(edges, n, a.inputs[i], a.outputs);
    let io = Exchange {
        ctx: a.ctx,
        ins,
        outs: a.outputs[i],
        ctx_after: b.ctx,
        outs_after: b.outputs[i],
    };
    let io2 = Exchange { ctx_after: c.ctx, outs_after: c.outputs[i], ..io };
    assert((a.nodes[i].process)(a.nodes[i].state, io, b.nodes[i].state));
    assert((a.nodes[i].process)(a.nodes[i].state, io2, c.nodes[i].state));
}

/// The engine itself leaves nothing to chance: if every node is deterministic, so is a cycle.
pub proof fn lemma_cycle_deterministic(
    edges: Seq<Edge>,
    order: Seq<NodeId>,
    a: CycleState,
    b: CycleState,
    c: CycleState,
)
    requires
        aligned(a),
        cycle(edges, order, a, b),
        cycle(edges, order, a, c),
        forall|i: int| 0 <= i < a.nodes.len() ==> deterministic(#[trigger] a.nodes[i]),
    ensures
        b == c,
{
    let trace = choose|trace: Seq<CycleState>| #[trigger]
        is_trace(edges, order, trace) && trace[0] == a && trace.last() == b;
    let other = choose|trace: Seq<CycleState>| #[trigger]
        is_trace(edges, order, trace) && trace[0] == a && trace.last() == c;
    lemma_traces_agree(edges, order, trace, other, order.len() as int);
}

proof fn lemma_traces_agree(
    edges: Seq<Edge>,
    order: Seq<NodeId>,
    trace: Seq<CycleState>,
    other: Seq<CycleState>,
    k: int,
)
    requires
        is_trace(edges, order, trace),
        is_trace(edges, order, other),
        trace[0] == other[0],
        aligned(trace[0]),
        forall|i: int| 0 <= i < trace[0].nodes.len() ==> deterministic(#[trigger] trace[0].nodes[i]),
        0 <= k <= order.len(),
    ensures
        trace[k] == other[k],
    decreases k,
{
    if k > 0 {
        lemma_traces_agree(edges, order, trace, other, k - 1);
        lemma_trace_keeps_shape(edges, order, trace, 0, k - 1);
        let n = order[k - 1];
        let a = trace[0];
        let b = trace[k - 1];
        assert(node_step(edges, n, trace[k - 1], trace[k - 1 + 1]));
        assert(node_step(edges, n, other[k - 1], other[k - 1 + 1]));
        assert(deterministic(b.nodes[n as int])) by {
            assert(crate::node::same_node(a.nodes[n as int], b.nodes[n as int]));
            assert(deterministic(a.nodes[n as int]));
            reveal(deterministic);
        }
        lemma_step_deterministic(edges, n, b, trace[k], other[k]);
    }
}

} // verus!
