//! One at a time to a graph, with a record of the cycles that it went through.
//!
//! Whoever enters finds the graph as the one before left it, and may leave it in two ways only: as
//! found, or after one cycle.

use crate::error::GraphError;
use crate::graph::{Graph, GraphView};
use crate::keyed::{enclose, inside, lock, unlock, Key};
use crate::node::ProcessContext;
use std::sync::{Mutex, MutexGuard};
use vstd::prelude::*;
use vstd::rwlock::{RwLock, RwLockPredicate, WriteHandle};

verus! {

/// A call that runs a cycle: the context that it is given, its result and the context that it leaves.
pub struct Call {
    pub ctx: ProcessContext,
    pub r: Result<(), GraphError>,
    pub ctx_after: ProcessContext,
}

/// `states` are those of a graph before, between and after `calls`, each of which runs one cycle.
pub open spec fn one_cycle_each(calls: Seq<Call>, states: Seq<GraphView>) -> bool {
    &&& states.len() == calls.len() + 1
    &&& forall|k: int|
        0 <= k < calls.len() ==> crate::graph::cycle_outcome(
            states[k],
            (#[trigger] calls[k]).ctx,
            calls[k].r,
            states[k + 1],
            calls[k].ctx_after,
        )
}

/// `g` is the graph `origin` after `calls`, each of which ran one cycle, and after nothing else.
pub open spec fn after_calls(origin: GraphView, calls: Seq<Call>, g: GraphView) -> bool {
    exists|states: Seq<GraphView>| #[trigger]
        one_cycle_each(calls, states) && states[0] == origin && states.last() == g
}

/// One more call adds one cycle to what the calls before it did.
pub proof fn lemma_next_call(
    origin: GraphView,
    calls: Seq<Call>,
    g: GraphView,
    call: Call,
    after: GraphView,
)
    requires
        after_calls(origin, calls, g),
        crate::graph::cycle_outcome(g, call.ctx, call.r, after, call.ctx_after),
    ensures
        after_calls(origin, calls.push(call), after),
{
    let states = choose|states: Seq<GraphView>| #[trigger]
        one_cycle_each(calls, states) && states[0] == origin && states.last() == g;
    let longer = states.push(after);
    let more = calls.push(call);
    assert forall|k: int| 0 <= k < more.len() implies crate::graph::cycle_outcome(
        longer[k],
        (#[trigger] more[k]).ctx,
        more[k].r,
        longer[k + 1],
        more[k].ctx_after,
    ) by {
        if k < calls.len() {
            assert(more[k] == calls[k]);
            assert(longer[k] == states[k]);
            assert(longer[k + 1] == states[k + 1]);
        }
    }
    assert(one_cycle_each(more, longer));
    assert(longer[0] == origin && longer.last() == after);
}

/// What the key of a graph and the record of its calls have to agree on.
pub struct Lineage {
    pub origin: GraphView,
    pub mutex: Mutex<Graph>,
}

/// The key of a graph, with the calls that have run a cycle of it.
pub struct Record {
    key: Key,
    calls: Ghost<Seq<Call>>,
}

impl Record {
    /// The key.
    pub closed spec fn key(&self) -> Key {
        self.key
    }

    /// The calls that have run a cycle, oldest first.
    pub closed spec fn calls(&self) -> Seq<Call> {
        self.calls@
    }
}

impl RwLockPredicate<Record> for Lineage {
    open spec fn inv(self, record: Record) -> bool {
        &&& record.key().mutex() == self.mutex
        &&& after_calls(self.origin, record.calls(), record.key().left())
    }
}

/// A graph that is used by one at a time.
pub struct Turnstile {
    graph: Mutex<Graph>,
    record: RwLock<Record, Lineage>,
}

/// The visit of one who entered: the graph, as it was found and as it is now.
pub struct Visit<'a> {
    guard: MutexGuard<'a, Graph>,
    turn: WriteHandle<'a, Record, Lineage>,
    calls: Ghost<Seq<Call>>,
    found: Ghost<GraphView>,
}

impl<'a> Visit<'a> {
    /// The graph as it was found.
    pub closed spec fn found(&self) -> GraphView {
        self.found@
    }

    /// The graph as it is now.
    pub closed spec fn now(&self) -> GraphView {
        crate::keyed::graph_under(self.guard)
    }

    /// The calls that had run a cycle before this visit, oldest first.
    pub closed spec fn calls(&self) -> Seq<Call> {
        self.calls@
    }

    /// Where the visit takes place.
    pub closed spec fn place(&self) -> Turnstile {
        Turnstile { graph: crate::keyed::mutex_under(self.guard), record: self.turn.rwlock() }
    }

    /// Borrows the graph.
    pub(crate) fn graph(&mut self) -> (r: &mut Graph)
        ensures
            r@ == old(self).now(),
            final(self).now() == final(r)@,
            final(self).found() == old(self).found(),
            final(self).calls() == old(self).calls(),
            final(self).place() == old(self).place(),
    {
        inside(&mut self.guard)
    }
}

impl Turnstile {
    #[verifier::type_invariant]
    spec fn inv(&self) -> bool {
        self.record.pred().mutex == self.graph
    }

    /// The graph as it was at first.
    pub closed spec fn origin(&self) -> GraphView {
        self.record.pred().origin
    }

    /// Puts up a graph that went through no cycle yet.
    pub(crate) fn new(graph: Graph) -> (r: Self)
        ensures
            r.origin() == graph@,
    {
        let ghost origin = graph@;
        let (graph, key) = enclose(graph);
        let record = Record { key, calls: Ghost(Seq::empty()) };
        proof {
            let states = seq![origin];
            assert(one_cycle_each(Seq::empty(), states));
            assert(states[0] == origin && states.last() == origin);
            assert(after_calls(origin, record.calls(), origin));
        }
        Turnstile { record: RwLock::new(record, Ghost(Lineage { origin, mutex: graph })), graph }
    }

    /// Waits until nobody else is in, and enters.
    pub(crate) fn enter(&self) -> (r: Visit<'_>)
        ensures
            r.place() == *self,
            r.now() == r.found(),
            after_calls(self.origin(), r.calls(), r.found()),
    {
        proof {
            use_type_invariant(self);
        }
        let (record, turn) = self.record.acquire_write();
        let Record { key, calls } = record;
        let guard = lock(&self.graph, key);
        let ghost found = crate::keyed::graph_under(guard);
        Visit { guard, turn, calls, found: Ghost(found) }
    }

    /// Leaves the graph as it was found.
    pub(crate) fn leave(&self, visit: Visit<'_>)
        requires
            visit.place() == *self,
            visit.now() == visit.found(),
            after_calls(self.origin(), visit.calls(), visit.found()),
    {
        proof {
            use_type_invariant(self);
        }
        let key = unlock(visit.guard);
        visit.turn.release_write(Record { key, calls: visit.calls });
    }

    /// Leaves the graph one cycle further than it was found: the one that `call` ran.
    pub(crate) fn leave_after(&self, visit: Visit<'_>, Ghost(call): Ghost<Call>)
        requires
            visit.place() == *self,
            crate::graph::cycle_outcome(
                visit.found(),
                call.ctx,
                call.r,
                visit.now(),
                call.ctx_after,
            ),
            after_calls(self.origin(), visit.calls(), visit.found()),
    {
        proof {
            use_type_invariant(self);
            lemma_next_call(self.origin(), visit.calls(), visit.found(), call, visit.now());
        }
        let ghost calls = visit.calls().push(call);
        let key = unlock(visit.guard);
        visit.turn.release_write(Record { key, calls: Ghost(calls) });
    }
}

} // verus!
