//! A handle to a graph that can be replaced while it runs.
//!
//! The control thread builds and compiles a new graph and installs it; the real-time thread loads
//! the graph that is installed and runs one cycle of it. A graph that was replaced lives on until
//! nobody uses it any more, so that installing another one does not disturb a cycle, and is
//! dropped then.

use crate::distributed::{PartitionHint, RemoteNode};
use crate::error::GraphError;
use crate::frame::AudioFrame;
use crate::graph::{Graph, GraphConfig, GraphView, NodeId, PortIdx};
use crate::node::ProcessContext;
use crate::topology_pub::{SnapshotSource, TopologySnapshot};
use crate::turnstile::{Call, Turnstile, Visit};
use std::sync::Arc;
use vstd::prelude::*;

verus! {

/// `after` is the graph `g` but for the state of the nodes and the contents of the frames.
pub open spec fn same_graph(g: GraphView, after: GraphView) -> bool {
    &&& after == (GraphView {
        nodes: after.nodes,
        inputs: after.inputs,
        outputs: after.outputs,
        ..g
    })
    &&& after.nodes.len() == g.nodes.len()
    &&& after.inputs.len() == g.inputs.len()
    &&& after.outputs.len() == g.outputs.len()
    &&& forall|i: int|
        0 <= i < g.nodes.len() ==> crate::node::same_node(g.nodes[i], #[trigger] after.nodes[i])
    &&& forall|i: int|
        0 <= i < g.inputs.len() ==> (#[trigger] after.inputs[i]).len() == g.inputs[i].len()
    &&& forall|i: int|
        0 <= i < g.outputs.len() ==> (#[trigger] after.outputs[i]).len() == g.outputs[i].len()
}

/// A cycle may lead from `g` to `after`. In a graph that is not compiled it changes nothing.
pub open spec fn one_cycle(g: GraphView, after: GraphView) -> bool {
    exists|ctx: ProcessContext, r: Result<(), GraphError>, ctx_after: ProcessContext| #[trigger]
        crate::graph::cycle_outcome(g, ctx, r, after, ctx_after)
}

/// `run` lists states of a graph, each led to by a cycle in the one before.
pub open spec fn is_run(run: Seq<GraphView>) -> bool {
    &&& run.len() > 0
    &&& forall|k: int, j: int|
        0 <= k && j == k + 1 && j < run.len() ==> one_cycle(#[trigger] run[k], #[trigger] run[j])
}

/// `g` is the graph `origin` after some number of cycles, and after nothing else.
pub open spec fn reached(origin: GraphView, g: GraphView) -> bool {
    exists|run: Seq<GraphView>| #[trigger]
        is_run(run) && run.first() == origin && run.last() == g
}

/// A cycle ran in the graph that was installed as `origin`, after some number of cycles of that
/// graph, with the result `r`, and led from the context `ctx` to `ctx_after`.
pub open spec fn ran_in(
    origin: GraphView,
    ctx: ProcessContext,
    r: Result<(), GraphError>,
    ctx_after: ProcessContext,
) -> bool {
    exists|g: GraphView, after: GraphView|
        reached(origin, g) && reached(origin, after) && #[trigger] crate::graph::cycle_outcome(
            g,
            ctx,
            r,
            after,
            ctx_after,
        )
}

proof fn lemma_reached_start(origin: GraphView)
    ensures
        reached(origin, origin),
{
    let run = seq![origin];
    assert(is_run(run));
    assert(run.first() == origin && run.last() == origin);
}

proof fn lemma_reached_step(origin: GraphView, g: GraphView, after: GraphView)
    requires
        reached(origin, g),
        one_cycle(g, after),
    ensures
        reached(origin, after),
{
    let run = choose|run: Seq<GraphView>| #[trigger]
        is_run(run) && run.first() == origin && run.last() == g;
    let longer = run.push(after);
    assert forall|k: int, j: int| 0 <= k && j == k + 1 && j < longer.len() implies one_cycle(
        #[trigger] longer[k],
        #[trigger] longer[j],
    ) by {
        if j < run.len() {
            assert(one_cycle(run[k], run[j]));
        }
    }
    assert(is_run(longer));
    assert(longer.first() == origin && longer.last() == after);
}

/// Whatever number of cycles a graph goes through, it stays the same graph and well-formed.
pub proof fn lemma_reached_same_graph(origin: GraphView, g: GraphView)
    requires
        origin.wf(),
        reached(origin, g),
    ensures
        g.wf(),
        same_graph(origin, g),
{
    let run = choose|run: Seq<GraphView>| #[trigger]
        is_run(run) && run.first() == origin && run.last() == g;
    lemma_run_same_graph(run, run.len() - 1);
}

proof fn lemma_run_same_graph(run: Seq<GraphView>, k: int)
    requires
        is_run(run),
        run[0].wf(),
        0 <= k < run.len(),
    ensures
        run[k].wf(),
        same_graph(run[0], run[k]),
    decreases k,
{
    if k > 0 {
        lemma_run_same_graph(run, k - 1);
        let g = run[k - 1];
        let after = run[k];
        assert(one_cycle(g, after));
        let (ctx, r, ctx_after) = choose|
            ctx: ProcessContext,
            r: Result<(), GraphError>,
            ctx_after: ProcessContext,
        | #[trigger] crate::graph::cycle_outcome(g, ctx, r, after, ctx_after);
        if g.compiled {
            crate::laws::lemma_cycle_keeps_graph(g, ctx, after, ctx_after);
            lemma_same_graph_chain(
                run[0],
                g.cycle_state(ctx),
                g,
                after.cycle_state(ctx_after),
                after,
            );
        }
    }
}

/// The call `call` ran one cycle in the graph that was installed as `origin`. Other calls may have run
/// before it; each of them ran one cycle too, and so the graph is as many cycles away from `origin`
/// as there were calls.
pub open spec fn call_ran(origin: GraphView, call: Call) -> bool {
    exists|calls: Seq<Call>, found: GraphView, left: GraphView|
        {
            &&& #[trigger] crate::turnstile::after_calls(origin, calls, found)
            &&& crate::graph::cycle_outcome(found, call.ctx, call.r, left, call.ctx_after)
            &&& #[trigger] crate::turnstile::after_calls(origin, calls.push(call), left)
        }
}

/// What calls do to an installed graph, cycles do: as many of them as there were calls.
pub proof fn lemma_calls_are_cycles(origin: GraphView, calls: Seq<Call>, g: GraphView) -> (run: Seq<
    GraphView,
>)
    requires
        crate::turnstile::after_calls(origin, calls, g),
    ensures
        run.len() == calls.len() + 1,
        run[0] == origin,
        run[calls.len() as int] == g,
        forall|k: int|
            0 <= k < calls.len() ==> crate::graph::cycle_outcome(
                run[k],
                (#[trigger] calls[k]).ctx,
                calls[k].r,
                run[k + 1],
                calls[k].ctx_after,
            ),
        reached(origin, g),
{
    let run = choose|states: Seq<GraphView>| #[trigger]
        crate::turnstile::one_cycle_each(calls, states) && states[0] == origin && states.last()
            == g;
    assert forall|k: int, j: int| 0 <= k && j == k + 1 && j < run.len() implies one_cycle(
        #[trigger] run[k],
        #[trigger] run[j],
    ) by {
        let call = calls[k];
        assert(crate::graph::cycle_outcome(run[k], call.ctx, call.r, run[j], call.ctx_after));
    }
    assert(is_run(run));
    assert(run.first() == origin && run.last() == g);
    run
}

/// A call to run a cycle runs one: from the graph as it was installed, through the states in which
/// earlier calls left it, each call leads to the next state by one cycle, in its own context and with
/// its own result. This call is the last of them.
pub proof fn lemma_call_runs_one_cycle(origin: GraphView, call: Call) -> (r: (
    Seq<Call>,
    Seq<GraphView>,
))
    requires
        call_ran(origin, call),
    ensures
        r.0.len() > 0,
        r.0[r.0.len() - 1] == call,
        r.1.len() == r.0.len() + 1,
        r.1[0] == origin,
        forall|k: int|
            0 <= k < r.0.len() ==> crate::graph::cycle_outcome(
                r.1[k],
                (#[trigger] r.0[k]).ctx,
                r.0[k].r,
                r.1[k + 1],
                r.0[k].ctx_after,
            ),
{
    let (calls, found, left) = choose|calls: Seq<Call>, found: GraphView, left: GraphView|
        {
            &&& #[trigger] crate::turnstile::after_calls(origin, calls, found)
            &&& crate::graph::cycle_outcome(found, call.ctx, call.r, left, call.ctx_after)
            &&& #[trigger] crate::turnstile::after_calls(origin, calls.push(call), left)
        };
    let all = calls.push(call);
    let states = choose|states: Seq<GraphView>| #[trigger]
        crate::turnstile::one_cycle_each(all, states) && states[0] == origin && states.last()
            == left;
    (all, states)
}

/// What is read from an installed graph is in a state that it reached from the one in which it was
/// installed, by calls that ran one cycle each, and by nothing else: here are such calls, and the
/// states before, between and after them.
pub proof fn lemma_reached_by_cycles_alone(origin: GraphView, g: GraphView) -> (r: (
    Seq<Call>,
    Seq<GraphView>,
))
    requires
        reached(origin, g),
    ensures
        r.1.len() == r.0.len() + 1,
        r.1[0] == origin,
        r.1[r.0.len() as int] == g,
        forall|k: int|
            0 <= k < r.0.len() ==> crate::graph::cycle_outcome(
                r.1[k],
                (#[trigger] r.0[k]).ctx,
                r.0[k].r,
                r.1[k + 1],
                r.0[k].ctx_after,
            ),
{
    let run = choose|run: Seq<GraphView>| #[trigger]
        is_run(run) && run.first() == origin && run.last() == g;
    let calls = Seq::new(
        (run.len() - 1) as nat,
        |k: int|
            choose|call: Call| #[trigger]
                leads(run[k], call, run[k + 1]),
    );
    assert forall|k: int| 0 <= k < calls.len() implies crate::graph::cycle_outcome(
        run[k],
        (#[trigger] calls[k]).ctx,
        calls[k].r,
        run[k + 1],
        calls[k].ctx_after,
    ) by {
        let j = k + 1;
        assert(one_cycle(run[k], run[j]));
        let (ctx, r, ctx_after) = choose|
            ctx: ProcessContext,
            r: Result<(), GraphError>,
            ctx_after: ProcessContext,
        | #[trigger] crate::graph::cycle_outcome(run[k], ctx, r, run[j], ctx_after);
        assert(leads(run[k], Call { ctx, r, ctx_after }, run[k + 1]));
        assert(leads(run[k], calls[k], run[k + 1]));
    }
    (calls, run)
}

/// The call led from `g` to `after`.
spec fn leads(g: GraphView, call: Call, after: GraphView) -> bool {
    crate::graph::cycle_outcome(g, call.ctx, call.r, after, call.ctx_after)
}

/// After the same calls, in the same contexts, an installed graph whose nodes are deterministic is in
/// the same state: no call leaves more or fewer cycles behind than another.
pub proof fn lemma_calls_determine_the_graph(
    origin: GraphView,
    calls: Seq<Call>,
    g: GraphView,
    others: Seq<Call>,
    h: GraphView,
)
    requires
        origin.wf(),
        forall|i: int|
            0 <= i < origin.nodes.len() ==> crate::cycle::deterministic(
                #[trigger] origin.nodes[i],
            ),
        crate::turnstile::after_calls(origin, calls, g),
        crate::turnstile::after_calls(origin, others, h),
        calls.len() == others.len(),
        forall|k: int| 0 <= k < calls.len() ==> (#[trigger] calls[k]).ctx == others[k].ctx,
    ensures
        g == h,
{
    let states = choose|states: Seq<GraphView>| #[trigger]
        crate::turnstile::one_cycle_each(calls, states) && states[0] == origin && states.last() == g;
    let same = choose|states: Seq<GraphView>| #[trigger]
        crate::turnstile::one_cycle_each(others, states) && states[0] == origin && states.last() == h;
    lemma_states_agree(calls, states, others, same, calls.len() as int);
}

proof fn lemma_states_agree(
    calls: Seq<Call>,
    states: Seq<GraphView>,
    others: Seq<Call>,
    same: Seq<GraphView>,
    k: int,
)
    requires
        crate::turnstile::one_cycle_each(calls, states),
        crate::turnstile::one_cycle_each(others, same),
        states[0] == same[0],
        states[0].wf(),
        forall|i: int|
            0 <= i < states[0].nodes.len() ==> crate::cycle::deterministic(
                #[trigger] states[0].nodes[i],
            ),
        calls.len() == others.len(),
        forall|j: int| 0 <= j < calls.len() ==> (#[trigger] calls[j]).ctx == others[j].ctx,
        0 <= k <= calls.len(),
    ensures
        states[k] == same[k],
        states[k].wf(),
        same_graph(states[0], states[k]),
    decreases k,
{
    if k > 0 {
        lemma_states_agree(calls, states, others, same, k - 1);
        let g = states[k - 1];
        let call = calls[k - 1];
        let other = others[k - 1];
        assert(crate::graph::cycle_outcome(
            g,
            call.ctx,
            call.r,
            states[k - 1 + 1],
            call.ctx_after,
        ));
        assert(crate::graph::cycle_outcome(
            g,
            other.ctx,
            other.r,
            same[k - 1 + 1],
            other.ctx_after,
        ));
        if g.compiled {
            crate::laws::lemma_cycle_keeps_graph(g, call.ctx, states[k], call.ctx_after);
            lemma_same_graph_chain(
                states[0],
                g.cycle_state(call.ctx),
                g,
                states[k].cycle_state(call.ctx_after),
                states[k],
            );
            assert forall|i: int| 0 <= i < g.nodes.len() implies crate::cycle::deterministic(
                #[trigger] g.nodes[i],
            ) by {
                assert(crate::node::same_node(states[0].nodes[i], g.nodes[i]));
                assert(crate::cycle::deterministic(states[0].nodes[i]));
                reveal(crate::cycle::deterministic);
            }
            crate::cycle::lemma_cycle_deterministic(
                g.edges,
                g.order,
                g.cycle_state(call.ctx),
                states[k].cycle_state(call.ctx_after),
                same[k].cycle_state(other.ctx_after),
            );
        }
    }
}

/// A graph that is installed in a handle. Cycles and readers use it one at a time, and a reader leaves
/// it as it was found.
pub struct InstalledGraph {
    inner: Turnstile,
}

impl InstalledGraph {
    #[verifier::type_invariant]
    spec fn inv(&self) -> bool {
        self.inner.origin().wf()
    }

    /// The graph as it was when it was installed.
    pub closed spec fn origin(&self) -> GraphView {
        self.inner.origin()
    }

    /// The visit takes place here, and the graph is as it was found.
    spec fn may_leave(&self, visit: Visit) -> bool {
        &&& visit.place() == self.inner
        &&& visit.now() == visit.found()
        &&& crate::turnstile::after_calls(self.origin(), visit.calls(), visit.found())
    }

    /// Wraps a graph.
    fn new(graph: Graph) -> (r: Self)
        requires
            graph@.wf(),
        ensures
            r.origin() == graph@,
    {
        InstalledGraph { inner: Turnstile::new(graph) }
    }

    /// Waits until nobody else uses the graph, and enters.
    fn enter(&self) -> (r: Visit<'_>)
        ensures
            self.may_leave(r),
            reached(self.origin(), r.found()),
            r.found().wf(),
            same_graph(self.origin(), r.found()),
    {
        proof {
            use_type_invariant(self);
        }
        let visit = self.inner.enter();
        proof {
            let _ = lemma_calls_are_cycles(self.origin(), visit.calls(), visit.found());
            lemma_reached_same_graph(self.origin(), visit.found());
        }
        visit
    }

    /// Leaves the graph as it was found.
    fn leave(&self, visit: Visit<'_>)
        requires
            self.may_leave(visit),
    {
        self.inner.leave(visit);
    }

    /// Runs one cycle of the graph; see [`Graph::process_cycle`]. It waits, spinning, while the graph
    /// is being read or another cycle of it runs. If a node panics, the key is lost, and every later
    /// call on this graph hangs; the graph is dropped with its last user all the same.
    pub fn process_cycle(&self, ctx: &mut ProcessContext) -> (r: Result<(), GraphError>)
        ensures
            ran_in(self.origin(), *old(ctx), r, *final(ctx)),
            call_ran(self.origin(), (Call { ctx: *old(ctx), r, ctx_after: *final(ctx) })),
            r is Ok <==> self.origin().compiled,
    {
        let mut visit = self.enter();
        let ghost calls = visit.calls();
        let ghost found = visit.found();
        let r = visit.graph().process_cycle(ctx);
        let ghost call = Call { ctx: *old(ctx), r, ctx_after: *ctx };
        let ghost left = visit.now();
        proof {
            assert(one_cycle(found, left));
            lemma_reached_step(self.origin(), found, left);
            crate::turnstile::lemma_next_call(self.origin(), calls, found, call, left);
        }
        self.inner.leave_after(visit, Ghost(call));
        r
    }

    /// Returns a copy of the frame at an output port, as it is after some number of cycles of the
    /// graph; see [`Graph::read_output`].
    #[must_use]
    pub fn read_output(&self, node: NodeId, port: PortIdx) -> (r: Option<AudioFrame>)
        ensures
            r is Some <==> crate::cycle::has_slot(self.origin().outputs, (node, port)),
            r matches Some(frame) ==> exists|g: GraphView| #[trigger]
                reached(self.origin(), g) && frame@ == g.outputs[node as int][port as int],
    {
        let mut visit = self.enter();
        let r = match visit.graph().read_output(node, port) {
            Some(frame) => Some(frame.clone()),
            None => None,
        };
        self.leave(visit);
        r
    }

    /// Returns a copy of the frame that reached an input port, as it is after some number of cycles
    /// of the graph; see [`Graph::read_input`].
    #[must_use]
    pub fn read_input(&self, node: NodeId, port: PortIdx) -> (r: Option<AudioFrame>)
        ensures
            r is Some <==> crate::cycle::has_slot(self.origin().inputs, (node, port)),
            r matches Some(frame) ==> exists|g: GraphView| #[trigger]
                reached(self.origin(), g) && frame@ == g.inputs[node as int][port as int],
    {
        let mut visit = self.enter();
        let r = match visit.graph().read_input(node, port) {
            Some(frame) => Some(frame.clone()),
            None => None,
        };
        self.leave(visit);
        r
    }

    /// Returns the number of nodes.
    #[must_use]
    pub fn node_count(&self) -> (r: usize)
        ensures
            r == self.origin().nodes.len(),
    {
        let mut visit = self.enter();
        let r: usize = visit.graph().node_count();
        self.leave(visit);
        r
    }

    /// Returns the number of links.
    #[must_use]
    pub fn link_count(&self) -> (r: usize)
        ensures
            r == self.origin().edges.len(),
    {
        let mut visit = self.enter();
        let r: usize = visit.graph().link_count();
        self.leave(visit);
        r
    }

    /// Returns whether the graph is compiled.
    #[must_use]
    pub fn is_compiled(&self) -> (r: bool)
        ensures
            r == self.origin().compiled,
    {
        let mut visit = self.enter();
        let r: bool = visit.graph().is_compiled();
        self.leave(visit);
        r
    }

    /// Returns the configuration that the graph was compiled with.
    #[must_use]
    pub fn config(&self) -> (r: GraphConfig)
        ensures
            r == self.origin().config,
    {
        let mut visit = self.enter();
        let r: GraphConfig = visit.graph().config();
        self.leave(visit);
        r
    }

    /// Derives a partition hint; see [`Graph::partition_hints`].
    #[must_use]
    pub fn partition_hints(&self, boundaries: &[(NodeId, PortIdx, RemoteNode)]) -> (r: Vec<
        PartitionHint,
    >)
        ensures
            r@.len() == 1,
            r@[0]@ == crate::distributed::whole_graph_hint(
                self.origin().nodes,
                crate::distributed::declarations(boundaries@),
            ),
    {
        let mut visit = self.enter();
        proof {
            crate::distributed::lemma_hint_depends_on_ports(
                self.origin().nodes,
                visit.now().nodes,
                crate::distributed::declarations(boundaries@),
            );
        }
        let r = visit.graph().partition_hints(boundaries);
        self.leave(visit);
        r
    }

    /// Returns the topology of the graph.
    #[must_use]
    pub fn topology_snapshot(&self) -> (r: TopologySnapshot)
        ensures
            r@ == self.origin().topology(),
    {
        let mut visit = self.enter();
        proof {
            lemma_same_topology(self.origin(), visit.now());
        }
        let r = visit.graph().topology_snapshot();
        self.leave(visit);
        r
    }
}

proof fn lemma_same_topology(g: GraphView, after: GraphView)
    requires
        same_graph(g, after),
    ensures
        after.topology() == g.topology(),
{
    assert(after.topology().nodes =~= g.topology().nodes) by {
        assert forall|i: int| 0 <= i < g.nodes.len() implies #[trigger] crate::graph::node_snapshot(
            i as NodeId,
            after.nodes[i],
        ) == crate::graph::node_snapshot(i as NodeId, g.nodes[i]) by {
            assert(crate::node::same_node(g.nodes[i], after.nodes[i]));
        }
    }
}

proof fn lemma_same_graph_chain(
    origin: GraphView,
    a: crate::cycle::CycleState,
    g: GraphView,
    b: crate::cycle::CycleState,
    after: GraphView,
)
    requires
        same_graph(origin, g),
        a == g.cycle_state(a.ctx),
        b == after.cycle_state(b.ctx),
        crate::cycle::same_shape(a, b),
        after == g.after_cycle(b),
    ensures
        same_graph(origin, after),
{
    assert forall|i: int| 0 <= i < origin.nodes.len() implies crate::node::same_node(
        origin.nodes[i],
        #[trigger] after.nodes[i],
    ) by {
        assert(crate::node::same_node(origin.nodes[i], g.nodes[i]));
        assert(crate::node::same_node(a.nodes[i], b.nodes[i]));
    }
    assert forall|i: int| 0 <= i < origin.inputs.len() implies (#[trigger] after.inputs[i]).len()
        == origin.inputs[i].len() by {
        assert(b.inputs[i].len() == a.inputs[i].len());
        assert(g.inputs[i].len() == origin.inputs[i].len());
    }
    assert forall|i: int| 0 <= i < origin.outputs.len() implies (#[trigger] after.outputs[i]).len()
        == origin.outputs[i].len() by {
        assert(b.outputs[i].len() == a.outputs[i].len());
        assert(g.outputs[i].len() == origin.outputs[i].len());
    }
}

/// The place that holds the installed graph, an `arc_swap::ArcSwap`.
#[verifier::external_body]
pub struct GraphSwap {
    inner: arc_swap::ArcSwap<InstalledGraph>,
}

/// The graph that `place` was made with, as it was then.
pub uninterp spec fn first_graph(place: GraphSwap) -> GraphView;

/// The replacements that happen in `place`, earlier or later: which graph gives way to which other,
/// each as it was when it was installed. The place is shared between threads, so its value does
/// not tell which of them have happened yet.
pub uninterp spec fn replacements(place: GraphSwap) -> Set<(GraphView, GraphView)>;

/// The graphs that a place holds at one time or another: the first one, and those that replace
/// another.
pub open spec fn graphs_held(first: GraphView, swaps: Set<(GraphView, GraphView)>) -> Set<
    GraphView,
> {
    Set::new(
        |g: GraphView|
            g == first || exists|before: GraphView| #[trigger] swaps.contains((before, g)),
    )
}

/// Calls `arc_swap::ArcSwap::new`, which makes a place that holds `graph`.
#[verifier::external_body]
fn hold(graph: Arc<InstalledGraph>) -> (r: GraphSwap)
    ensures
        first_graph(r) == graph.origin(),
{
    GraphSwap { inner: arc_swap::ArcSwap::new(graph) }
}

/// Calls `arc_swap::ArcSwap::swap`, which replaces the graph that is held by `graph` and yields the
/// one that was held. That later loads yield `graph` until it is replaced in turn is left unsaid:
/// the place is shared between threads, so its value does not tell what it holds when.
#[verifier::external_body]
fn replace(place: &GraphSwap, graph: Arc<InstalledGraph>) -> (replaced: Arc<InstalledGraph>)
    ensures
        graphs_held(first_graph(*place), replacements(*place)).contains(replaced.origin()),
        replacements(*place).contains((replaced.origin(), graph.origin())),
{
    place.inner.swap(graph)
}

/// Calls `arc_swap::ArcSwap::load_full`, which yields the graph that is held, without waiting. Which
/// of the graphs that is depends on what other threads have done, so the contract leaves it open.
#[verifier::external_body]
fn load(place: &GraphSwap) -> (r: Arc<InstalledGraph>)
    ensures
        graphs_held(first_graph(*place), replacements(*place)).contains(r.origin()),
{
    place.inner.load_full()
}

/// A place holds no graph but the one that it was made with and those that replaced another there.
pub proof fn lemma_only_installed_graphs_are_held(
    first: GraphView,
    swaps: Set<(GraphView, GraphView)>,
    g: GraphView,
)
    ensures
        graphs_held(first, swaps).contains(g) <==> g == first || exists|before: GraphView| #[trigger]
            swaps.contains((before, g)),
{
}

/// A handle to a graph that can be replaced without stopping the real-time thread.
///
/// The real-time thread runs cycles with [`RtHandle::process_cycle`]; the control thread replaces
/// the graph with [`RtHandle::install`].
pub struct RtHandle {
    inner: GraphSwap,
}

impl RtHandle {
    /// The graph that the handle was created with, as it was then.
    pub closed spec fn first(&self) -> GraphView {
        first_graph(self.inner)
    }

    /// Which graph gives way to which other in the handle, earlier or later, each as it was when it
    /// was installed.
    pub closed spec fn swaps(&self) -> Set<(GraphView, GraphView)> {
        replacements(self.inner)
    }

    /// The graphs that are installed at one time or another: the first one, and those that replace
    /// another.
    pub open spec fn graphs(&self) -> Set<GraphView> {
        graphs_held(self.first(), self.swaps())
    }

    /// Creates a handle to `graph`, which is usually compiled already.
    #[must_use]
    pub fn new(graph: Graph) -> (r: Self)
        requires
            graph@.wf(),
        ensures
            r.first() == graph@,
    {
        RtHandle { inner: hold(Arc::new(InstalledGraph::new(graph))) }
    }

    /// Replaces the graph that is installed, for the control thread. Cycles that are started from
    /// now on run in the new one, until it is replaced in turn; the contract says only that one of
    /// the installed graphs gives way to it. The replaced graph is dropped as soon as nobody uses
    /// it any more: here, or by the last cycle or reader that does.
    pub fn install(&self, graph: Graph)
        requires
            graph@.wf(),
        ensures
            exists|before: GraphView|
                self.graphs().contains(before) && #[trigger] self.swaps().contains((before, graph@)),
    {
        let ghost installed = graph@;
        let replaced = replace(&self.inner, Arc::new(InstalledGraph::new(graph)));
        assert(self.swaps().contains((replaced.origin(), installed)));
    }

    /// Loads the installed graph and runs one cycle of it, for the real-time thread; see
    /// [`InstalledGraph::process_cycle`]. Fails with [`GraphError::NotCompiled`] if that graph is
    /// not compiled.
    ///
    /// The load does not wait. The cycle waits, spinning, only while another thread reads that graph through
    /// [`RtHandle::graph`] or runs a cycle of it; readers that keep to the time between cycles never
    /// make it wait. If a node panics, every later call on that graph hangs; a graph that is
    /// installed after that is not affected.
    pub fn process_cycle(&self, ctx: &mut ProcessContext) -> (r: Result<(), GraphError>)
        ensures
            exists|origin: GraphView|
                self.graphs().contains(origin) && #[trigger] ran_in(
                    origin,
                    *old(ctx),
                    r,
                    *final(ctx),
                ) && call_ran(origin, (Call { ctx: *old(ctx), r, ctx_after: *final(ctx) })),
            (forall|origin: GraphView| #[trigger] self.graphs().contains(origin) ==> origin.compiled)
                ==> r is Ok,
    {
        let graph = load(&self.inner);
        assert(self.graphs().contains(graph.origin()));
        graph.process_cycle(ctx)
    }

    /// Loads the installed graph, for example to read its outputs after a cycle. It stays alive as
    /// long as it is in use, and is dropped with what is returned here if it was replaced meanwhile.
    #[must_use]
    pub fn graph(&self) -> (r: Arc<InstalledGraph>)
        ensures
            self.graphs().contains(r.origin()),
    {
        load(&self.inner)
    }
}

} // verus!
