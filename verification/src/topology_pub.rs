//! The shape of a graph as plain data: snapshots, edits and events.
//!
//! Nodes themselves cannot be stored or sent, so a snapshot holds the metadata of their ports.
//! Nothing here touches the real-time path.

use crate::graph::{LinkId, NodeId, PortIdx};
use crate::port::{PortDescriptor, PortDirection, SampleFormat};
use vstd::prelude::*;

verus! {

/// The direction of a port in a snapshot; mirrors [`PortDirection`].
#[derive(Debug, Clone, Copy, PartialEq, Eq, Hash, Structural)]
pub enum PortDir {
    /// The port consumes audio from an upstream node.
    Input,
    /// The port produces audio for a downstream node.
    Output,
}

/// The sample format of a port in a snapshot; mirrors [`SampleFormat`].
#[derive(Debug, Clone, Copy, PartialEq, Eq, Hash, Structural)]
pub enum SampleFmt {
    /// 32-bit float, the default sample format.
    F32,
    /// 64-bit float.
    F64,
    /// 16-bit signed integer.
    I16,
    /// 32-bit signed integer.
    I32,
}

/// The description of a port in a snapshot; mirrors [`PortDescriptor`].
#[derive(Debug, Clone, Copy, PartialEq, Eq, Structural)]
pub struct PortMeta {
    /// Whether this port is an input or an output.
    pub direction: PortDir,
    /// Number of channels carried by the port.
    pub channels: u16,
    /// Numeric format of each sample.
    pub sample_format: SampleFmt,
}

/// The mirror of a port descriptor, field by field.
pub open spec fn meta_of(d: PortDescriptor) -> PortMeta {
    PortMeta {
        direction: match d.direction {
            PortDirection::Input => PortDir::Input,
            PortDirection::Output => PortDir::Output,
        },
        channels: d.channels,
        sample_format: match d.sample_format {
            SampleFormat::F32 => SampleFmt::F32,
            SampleFormat::F64 => SampleFmt::F64,
            SampleFormat::I16 => SampleFmt::I16,
            SampleFormat::I32 => SampleFmt::I32,
        },
    }
}

/// The port descriptor that `m` mirrors, field by field.
pub open spec fn descriptor_of(m: PortMeta) -> PortDescriptor {
    PortDescriptor {
        direction: match m.direction {
            PortDir::Input => PortDirection::Input,
            PortDir::Output => PortDirection::Output,
        },
        channels: m.channels,
        sample_format: match m.sample_format {
            SampleFmt::F32 => SampleFormat::F32,
            SampleFmt::F64 => SampleFormat::F64,
            SampleFmt::I16 => SampleFormat::I16,
            SampleFmt::I32 => SampleFormat::I32,
        },
    }
}

/// The mirrors of a list of port descriptors.
pub open spec fn metas_of(ports: Seq<PortDescriptor>) -> Seq<PortMeta> {
    Seq::new(ports.len(), |i: int| meta_of(ports[i]))
}

/// Mirroring a port loses nothing, in either direction.
pub proof fn lemma_port_meta_roundtrip(d: PortDescriptor, m: PortMeta)
    ensures
        descriptor_of(meta_of(d)) == d,
        meta_of(descriptor_of(m)) == m,
{
}

impl PortMeta {
    /// Mirrors a port descriptor. The reverse is [`PortMeta::to_descriptor`].
    #[must_use]
    pub fn from_descriptor(d: PortDescriptor) -> (r: Self)
        ensures
            r == meta_of(d),
    {
        PortMeta {
            direction: match d.direction {
                PortDirection::Input => PortDir::Input,
                PortDirection::Output => PortDir::Output,
            },
            channels: d.channels,
            sample_format: match d.sample_format {
                SampleFormat::F32 => SampleFmt::F32,
                SampleFormat::F64 => SampleFmt::F64,
                SampleFormat::I16 => SampleFmt::I16,
                SampleFormat::I32 => SampleFmt::I32,
            },
        }
    }

    /// Gives back the port descriptor that this value mirrors.
    #[must_use]
    pub fn to_descriptor(self) -> (r: PortDescriptor)
        ensures
            r == descriptor_of(self),
    {
        PortDescriptor::new(
            match self.direction {
                PortDir::Input => PortDirection::Input,
                PortDir::Output => PortDirection::Output,
            },
            self.channels,
            match self.sample_format {
                SampleFmt::F32 => SampleFormat::F32,
                SampleFmt::F64 => SampleFormat::F64,
                SampleFmt::I16 => SampleFormat::I16,
                SampleFmt::I32 => SampleFormat::I32,
            },
        )
    }

    /// Mirrors every descriptor of a list.
    #[must_use]
    pub fn from_descriptors(ports: &[PortDescriptor]) -> (r: Vec<PortMeta>)
        ensures
            r@ == metas_of(ports@),
    {
        let mut r: Vec<PortMeta> = Vec::new();
        let mut i: usize = 0;
        while i < ports.len()
            invariant
                i <= ports@.len(),
                r@.len() == i,
                forall|k: int| 0 <= k < i ==> #[trigger] r@[k] == meta_of(ports@[k]),
            decreases ports@.len() - i,
        {
            r.push(PortMeta::from_descriptor(ports[i]));
            i = i + 1;
        }
        assert(r@ =~= metas_of(ports@));
        r
    }
}

/// A directed edge of a snapshot: an output port feeding an input port.
#[derive(Debug, Clone, Copy, PartialEq, Eq)]
pub struct SnapshotEdge {
    /// Source `(node, output port)`.
    pub from: (NodeId, PortIdx),
    /// Destination `(node, input port)`.
    pub to: (NodeId, PortIdx),
}

/// A node of a snapshot: its id and the metadata of its ports.
#[derive(Debug, PartialEq, Eq)]
pub struct NodeSnapshot {
    /// Stable id of the node within the graph.
    pub id: NodeId,
    /// Metadata of every input port, in the order in which the node reports them.
    pub inputs: Vec<PortMeta>,
    /// Metadata of every output port, in the order in which the node reports them.
    pub outputs: Vec<PortMeta>,
}

/// The contents of a [`NodeSnapshot`].
#[verifier::ext_equal]
pub struct NodeSnapshotView {
    pub id: NodeId,
    pub inputs: Seq<PortMeta>,
    pub outputs: Seq<PortMeta>,
}

impl View for NodeSnapshot {
    type V = NodeSnapshotView;

    open spec fn view(&self) -> NodeSnapshotView {
        NodeSnapshotView { id: self.id, inputs: self.inputs@, outputs: self.outputs@ }
    }
}

impl Clone for NodeSnapshot {
    fn clone(&self) -> (r: Self)
        ensures
            r@ == self@,
    {
        let inputs: Vec<PortMeta> = self.inputs.clone();
        let outputs: Vec<PortMeta> = self.outputs.clone();
        assert(inputs@ =~= self.inputs@);
        assert(outputs@ =~= self.outputs@);
        NodeSnapshot { id: self.id, inputs, outputs }
    }
}

/// The contents of a list of node snapshots.
pub open spec fn node_views(nodes: Seq<NodeSnapshot>) -> Seq<NodeSnapshotView> {
    Seq::new(nodes.len(), |i: int| nodes[i]@)
}

/// A snapshot of the topology of a whole graph: port metadata and edges.
#[derive(Debug, PartialEq, Eq)]
pub struct TopologySnapshot {
    /// All nodes.
    pub nodes: Vec<NodeSnapshot>,
    /// All directed edges, output port to input port.
    pub edges: Vec<SnapshotEdge>,
}

/// The contents of a [`TopologySnapshot`].
#[verifier::ext_equal]
pub struct SnapshotView {
    pub nodes: Seq<NodeSnapshotView>,
    pub edges: Seq<SnapshotEdge>,
}

impl View for TopologySnapshot {
    type V = SnapshotView;

    open spec fn view(&self) -> SnapshotView {
        SnapshotView { nodes: node_views(self.nodes@), edges: self.edges@ }
    }
}

/// An observable change of the topology of a graph.
#[derive(Debug, PartialEq, Eq)]
pub enum TopologyEvent {
    /// A node was added; carries its snapshot.
    NodeAdded(NodeSnapshot),
    /// A node was removed; carries its id.
    NodeRemoved(NodeId),
    /// A link was added; carries the edge.
    LinkAdded(SnapshotEdge),
    /// A link was removed; carries its id.
    LinkRemoved(LinkId),
    /// The graph finished compiling.
    GraphCompiled,
    /// The graph was reset to an uncompiled state.
    GraphReset,
}

/// The contents of a [`TopologyEvent`].
#[verifier::ext_equal]
pub enum EventView {
    NodeAdded(NodeSnapshotView),
    NodeRemoved(NodeId),
    LinkAdded(SnapshotEdge),
    LinkRemoved(LinkId),
    GraphCompiled,
    GraphReset,
}

impl View for TopologyEvent {
    type V = EventView;

    open spec fn view(&self) -> EventView {
        match self {
            TopologyEvent::NodeAdded(ns) => EventView::NodeAdded(ns@),
            TopologyEvent::NodeRemoved(id) => EventView::NodeRemoved(*id),
            TopologyEvent::LinkAdded(se) => EventView::LinkAdded(*se),
            TopologyEvent::LinkRemoved(id) => EventView::LinkRemoved(*id),
            TopologyEvent::GraphCompiled => EventView::GraphCompiled,
            TopologyEvent::GraphReset => EventView::GraphReset,
        }
    }
}

impl Clone for TopologyEvent {
    fn clone(&self) -> (r: Self)
        ensures
            r@ == self@,
    {
        match self {
            TopologyEvent::NodeAdded(ns) => TopologyEvent::NodeAdded(ns.clone()),
            TopologyEvent::NodeRemoved(id) => TopologyEvent::NodeRemoved(*id),
            TopologyEvent::LinkAdded(se) => TopologyEvent::LinkAdded(*se),
            TopologyEvent::LinkRemoved(id) => TopologyEvent::LinkRemoved(*id),
            TopologyEvent::GraphCompiled => TopologyEvent::GraphCompiled,
            TopologyEvent::GraphReset => TopologyEvent::GraphReset,
        }
    }
}

/// An edit of a [`TopologySnapshot`], applied by [`TopologySnapshot::apply`].
#[derive(Debug, PartialEq, Eq)]
pub enum Mutation {
    /// Add the given node, or replace the one with its id.
    AddNode(NodeSnapshot),
    /// Remove the node with the given id and every edge that touches it.
    RemoveNode(NodeId),
    /// Add the given edge.
    AddLink(SnapshotEdge),
    /// Remove the edge at the given position.
    RemoveLink(LinkId),
}

/// The contents of a [`Mutation`].
#[verifier::ext_equal]
pub enum MutationView {
    AddNode(NodeSnapshotView),
    RemoveNode(NodeId),
    AddLink(SnapshotEdge),
    RemoveLink(LinkId),
}

impl View for Mutation {
    type V = MutationView;

    open spec fn view(&self) -> MutationView {
        match self {
            Mutation::AddNode(ns) => MutationView::AddNode(ns@),
            Mutation::RemoveNode(id) => MutationView::RemoveNode(*id),
            Mutation::AddLink(se) => MutationView::AddLink(*se),
            Mutation::RemoveLink(id) => MutationView::RemoveLink(*id),
        }
    }
}

impl Clone for Mutation {
    fn clone(&self) -> (r: Self)
        ensures
            r@ == self@,
    {
        match self {
            Mutation::AddNode(ns) => Mutation::AddNode(ns.clone()),
            Mutation::RemoveNode(id) => Mutation::RemoveNode(*id),
            Mutation::AddLink(se) => Mutation::AddLink(*se),
            Mutation::RemoveLink(id) => Mutation::RemoveLink(*id),
        }
    }
}

/// The first node with the given id stands at position `i`.
pub open spec fn first_with_id(nodes: Seq<NodeSnapshotView>, id: NodeId, i: int) -> bool {
    &&& 0 <= i < nodes.len()
    &&& nodes[i].id == id
    &&& forall|j: int| 0 <= j < i ==> (#[trigger] nodes[j]).id != id
}

/// Some node has the given id.
pub open spec fn has_id(nodes: Seq<NodeSnapshotView>, id: NodeId) -> bool {
    exists|i: int| 0 <= i < nodes.len() && (#[trigger] nodes[i]).id == id
}

/// The edge touches the node with the given id.
pub open spec fn touches(e: SnapshotEdge, id: NodeId) -> bool {
    e.from.0 == id || e.to.0 == id
}

/// `nodes` after `ns` is added to it: in place of the first node with its id, or at the end.
pub open spec fn with_node(nodes: Seq<NodeSnapshotView>, ns: NodeSnapshotView) -> Seq<
    NodeSnapshotView,
> {
    if has_id(nodes, ns.id) {
        nodes.update(choose|i: int| first_with_id(nodes, ns.id, i), ns)
    } else {
        nodes.push(ns)
    }
}

/// The nodes other than `id`, in their order.
pub open spec fn without_node(nodes: Seq<NodeSnapshotView>, id: NodeId) -> Seq<NodeSnapshotView> {
    nodes.filter(|n: NodeSnapshotView| n.id != id)
}

/// The edges that do not touch `id`, in their order.
pub open spec fn without_links_of(edges: Seq<SnapshotEdge>, id: NodeId) -> Seq<SnapshotEdge> {
    edges.filter(|e: SnapshotEdge| !touches(e, id))
}

/// What a snapshot becomes under an edit.
pub open spec fn edited(s: SnapshotView, m: MutationView) -> SnapshotView {
    match m {
        MutationView::AddNode(ns) => SnapshotView { nodes: with_node(s.nodes, ns), ..s },
        MutationView::RemoveNode(id) => SnapshotView {
            nodes: without_node(s.nodes, id),
            edges: without_links_of(s.edges, id),
        },
        MutationView::AddLink(se) => SnapshotView { edges: s.edges.push(se), ..s },
        MutationView::RemoveLink(link) => if link < s.edges.len() {
            SnapshotView { edges: s.edges.remove(link as int), ..s }
        } else {
            s
        },
    }
}

proof fn lemma_first_unique(nodes: Seq<NodeSnapshotView>, id: NodeId, i: int, j: int)
    requires
        first_with_id(nodes, id, i),
        first_with_id(nodes, id, j),
    ensures
        i == j,
{
    if i < j {
        assert(nodes[i].id != id);
    } else if j < i {
        assert(nodes[j].id != id);
    }
}

proof fn lemma_first_exists(nodes: Seq<NodeSnapshotView>, id: NodeId) -> (i: int)
    requires
        has_id(nodes, id),
    ensures
        first_with_id(nodes, id, i),
    decreases nodes.len(),
{
    let shorter = nodes.drop_last();
    if has_id(shorter, id) {
        let i = lemma_first_exists(shorter, id);
        assert forall|j: int| 0 <= j < i implies (#[trigger] nodes[j]).id != id by {
            assert(shorter[j] == nodes[j]);
        }
        i
    } else {
        let i = choose|i: int| 0 <= i < nodes.len() && (#[trigger] nodes[i]).id == id;
        assert forall|j: int| 0 <= j < nodes.len() - 1 implies (#[trigger] nodes[j]).id != id by {
            assert(shorter[j] == nodes[j]);
        }
        i
    }
}

impl Default for TopologySnapshot {
    fn default() -> (r: Self)
        ensures
            r@ == (SnapshotView { nodes: Seq::empty(), edges: Seq::empty() }),
    {
        let r = TopologySnapshot { nodes: Vec::new(), edges: Vec::new() };
        assert(r@.nodes =~= Seq::empty());
        r
    }
}

impl Clone for TopologySnapshot {
    fn clone(&self) -> (r: Self)
        ensures
            r@ == self@,
    {
        let mut nodes: Vec<NodeSnapshot> = Vec::new();
        let mut i: usize = 0;
        while i < self.nodes.len()
            invariant
                i <= self.nodes@.len(),
                nodes@.len() == i,
                forall|k: int| 0 <= k < i ==> (#[trigger] nodes@[k])@ == self.nodes@[k]@,
            decreases self.nodes@.len() - i,
        {
            nodes.push(self.nodes[i].clone());
            i = i + 1;
        }
        let edges: Vec<SnapshotEdge> = self.edges.clone();
        assert(edges@ =~= self.edges@);
        assert(node_views(nodes@) =~= node_views(self.nodes@));
        TopologySnapshot { nodes, edges }
    }
}

impl TopologySnapshot {
    /// Creates an empty snapshot.
    #[must_use]
    pub fn new() -> (r: Self)
        ensures
            r@ == (SnapshotView { nodes: Seq::empty(), edges: Seq::empty() }),
    {
        TopologySnapshot::default()
    }

    /// Position of the first node with the given id.
    fn position(&self, id: NodeId) -> (r: Option<usize>)
        ensures
            r is Some <==> has_id(self@.nodes, id),
            r matches Some(i) ==> first_with_id(self@.nodes, id, i as int),
    {
        let mut i: usize = 0;
        while i < self.nodes.len()
            invariant
                i <= self.nodes@.len(),
                forall|j: int| 0 <= j < i ==> (#[trigger] self@.nodes[j]).id != id,
            decreases self.nodes@.len() - i,
        {
            assert(self@.nodes[i as int].id == self.nodes@[i as int].id);
            if self.nodes[i].id == id {
                return Some(i);
            }
            i = i + 1;
        }
        None
    }

    /// Finds a node by id.
    #[must_use]
    pub fn node(&self, id: NodeId) -> (r: Option<&NodeSnapshot>)
        ensures
            r is Some <==> has_id(self@.nodes, id),
            r matches Some(ns) ==> exists|i: int| #[trigger]
                first_with_id(self@.nodes, id, i) && ns@ == self@.nodes[i],
    {
        match self.position(id) {
            Some(i) => {
                assert(first_with_id(self@.nodes, id, i as int));
                Some(&self.nodes[i])
            },
            None => None,
        }
    }

    /// Removes every node with the given id.
    fn drop_nodes(&mut self, id: NodeId)
        ensures
            final(self)@ == (SnapshotView { nodes: without_node(old(self)@.nodes, id), ..old(self)@ }),
    {
        let ghost all = self@.nodes;
        let ghost keep = |n: NodeSnapshotView| n.id != id;
        let ghost mut j: int = 0;
        let mut i: usize = 0;
        assert(all.take(0).filter(keep) =~= Seq::empty()) by {
            reveal_with_fuel(Seq::filter, 1);
        }
        while i < self.nodes.len()
            invariant
                i <= self.nodes@.len(),
                0 <= j <= all.len(),
                self.nodes@.len() - i == all.len() - j,
                self.edges == old(self).edges,
                keep == (|n: NodeSnapshotView| n.id != id),
                self@.nodes.take(i as int) == all.take(j).filter(keep),
                forall|k: int| 0 <= k < self.nodes@.len() - i ==> #[trigger] self@.nodes[k + i] == all[k
                    + j],
            decreases self.nodes@.len() - i,
        {
            let ghost before = self@.nodes;
            proof {
                assert(all.take(j + 1).drop_last() =~= all.take(j));
                assert(before[0 + i] == all[0 + j]);
                reveal_with_fuel(Seq::filter, 1);
            }
            if self.nodes[i].id == id {
                let _ = self.nodes.remove(i);
                assert(self@.nodes =~= before.remove(i as int));
                assert(self@.nodes.take(i as int) =~= before.take(i as int));
                assert forall|k: int| 0 <= k < self.nodes@.len() - i implies #[trigger] self@.nodes[k
                    + i] == all[k + (j + 1)] by {
                    assert(before[(k + 1) + i] == all[(k + 1) + j]);
                }
            } else {
                assert(self@.nodes.take(i + 1) =~= self@.nodes.take(i as int).push(all[j]));
                assert forall|k: int| 0 <= k < self.nodes@.len() - (i + 1) implies #[trigger] self@.nodes[k
                    + (i + 1)] == all[k + (j + 1)] by {
                    assert(before[(k + 1) + i] == all[(k + 1) + j]);
                }
                i = i + 1;
            }
            proof {
                j = j + 1;
            }
        }
        assert(self@.nodes.take(i as int) =~= self@.nodes);
        assert(all.take(j) =~= all);
    }

    /// Removes every edge that touches the given node.
    fn drop_links_of(&mut self, id: NodeId)
        ensures
            final(self)@ == (SnapshotView {
                edges: without_links_of(old(self)@.edges, id),
                ..old(self)@
            }),
    {
        let ghost all = self.edges@;
        let ghost keep = |e: SnapshotEdge| !touches(e, id);
        let ghost mut j: int = 0;
        let mut i: usize = 0;
        assert(all.take(0).filter(keep) =~= Seq::empty()) by {
            reveal_with_fuel(Seq::filter, 1);
        }
        while i < self.edges.len()
            invariant
                i <= self.edges@.len(),
                0 <= j <= all.len(),
                self.edges@.len() - i == all.len() - j,
                self.nodes == old(self).nodes,
                keep == (|e: SnapshotEdge| !touches(e, id)),
                self.edges@.take(i as int) == all.take(j).filter(keep),
                forall|k: int| 0 <= k < self.edges@.len() - i ==> #[trigger] self.edges@[k + i]
                    == all[k + j],
            decreases self.edges@.len() - i,
        {
            let ghost before = self.edges@;
            proof {
                assert(all.take(j + 1).drop_last() =~= all.take(j));
                assert(before[0 + i] == all[0 + j]);
                reveal_with_fuel(Seq::filter, 1);
            }
            let edge = self.edges[i];
            if edge.from.0 == id || edge.to.0 == id {
                let _ = self.edges.remove(i);
                assert(self.edges@.take(i as int) =~= before.take(i as int));
                assert forall|k: int| 0 <= k < self.edges@.len() - i implies #[trigger] self.edges@[k
                    + i] == all[k + (j + 1)] by {
                    assert(before[(k + 1) + i] == all[(k + 1) + j]);
                }
            } else {
                assert(self.edges@.take(i + 1) =~= self.edges@.take(i as int).push(all[j]));
                assert forall|k: int| 0 <= k < self.edges@.len() - (i + 1) implies #[trigger] self.edges@[k
                    + (i + 1)] == all[k + (j + 1)] by {
                    assert(before[(k + 1) + i] == all[(k + 1) + j]);
                }
                i = i + 1;
            }
            proof {
                j = j + 1;
            }
        }
        assert(self.edges@.take(i as int) =~= self.edges@);
        assert(all.take(j) =~= all);
    }

    /// Applies an edit to this snapshot in place.
    ///
    /// - [`Mutation::AddNode`] inserts the node, or replaces the one with the same id.
    /// - [`Mutation::RemoveNode`] drops the node and every edge that touches it.
    /// - [`Mutation::AddLink`] appends the edge.
    /// - [`Mutation::RemoveLink`] removes the edge at the given position, which shifts the later
    ///   ones; a position out of range is ignored.
    pub fn apply(&mut self, mutation: &Mutation)
        ensures
            final(self)@ == edited(old(self)@, mutation@),
    {
        match mutation {
            Mutation::AddNode(ns) => {
                let copy = ns.clone();
                match self.position(ns.id) {
                    Some(i) => {
                        proof {
                            let first = choose|k: int| first_with_id(self@.nodes, ns.id, k);
                            lemma_first_unique(self@.nodes, ns.id, first, i as int);
                        }
                        self.nodes[i] = copy;
                        assert(self@.nodes =~= old(self)@.nodes.update(i as int, ns@));
                    },
                    None => {
                        self.nodes.push(copy);
                        assert(self@.nodes =~= old(self)@.nodes.push(ns@));
                    },
                }
            },
            Mutation::RemoveNode(id) => {
                self.drop_nodes(*id);
                self.drop_links_of(*id);
            },
            Mutation::AddLink(se) => {
                self.edges.push(*se);
            },
            Mutation::RemoveLink(link) => {
                if *link < self.edges.len() {
                    let _ = self.edges.remove(*link);
                }
            },
        }
    }
}

/// A source of [`TopologySnapshot`]s. Implemented by [`Graph`](crate::graph::Graph).
pub trait SnapshotSource {
    /// The topology as it is now. A source of which nothing is to be proved leaves it open.
    open spec fn topology(&self) -> SnapshotView {
        arbitrary()
    }

    /// Returns the current topology as plain data.
    #[must_use]
    fn topology_snapshot(&self) -> (r: TopologySnapshot)
        ensures
            r@ == self.topology(),
    ;
}

/// An observer of [`TopologyEvent`]s, for example one that stores or forwards them. Events never
/// come from the real-time path.
pub trait TopologyObserver {
    /// Called for each event of an observed graph.
    fn on_topology_event(&mut self, event: &TopologyEvent);
}

/// No two nodes have the same id.
pub open spec fn unique_ids(nodes: Seq<NodeSnapshotView>) -> bool {
    forall|i: int, j: int|
        0 <= i < j < nodes.len() ==> (#[trigger] nodes[i]).id != (#[trigger] nodes[j]).id
}

/// Every edge joins two nodes of the snapshot.
pub open spec fn no_dangling(s: SnapshotView) -> bool {
    forall|k: int|
        0 <= k < s.edges.len() ==> has_id(s.nodes, (#[trigger] s.edges[k]).from.0) && has_id(
            s.nodes,
            s.edges[k].to.0,
        )
}

/// The filtered sequence keeps exactly the elements that satisfy the predicate, in their order:
/// `at[i]` is where element `i` came from.
proof fn lemma_filter_positions<A>(s: Seq<A>, p: spec_fn(A) -> bool) -> (at: Seq<int>)
    ensures
        at.len() == s.filter(p).len(),
        forall|i: int|
            0 <= i < at.len() ==> 0 <= #[trigger] at[i] < s.len() && s.filter(p)[i] == s[at[i]]
                && p(s[at[i]]),
        forall|i: int, j: int| 0 <= i < j < at.len() ==> #[trigger] at[i] < #[trigger] at[j],
        forall|k: int| 0 <= k < s.len() && p(#[trigger] s[k]) ==> at.contains(k),
    decreases s.len(),
{
    reveal_with_fuel(Seq::filter, 1);
    if s.len() == 0 {
        Seq::empty()
    } else {
        let rest = lemma_filter_positions(s.drop_last(), p);
        assert forall|k: int| 0 <= k < s.len() - 1 && p(#[trigger] s[k]) implies rest.contains(
            k,
        ) by {
            assert(s.drop_last()[k] == s[k]);
        }
        if p(s.last()) {
            let at = rest.push(s.len() - 1);
            assert forall|k: int| 0 <= k < s.len() && p(#[trigger] s[k]) implies at.contains(k) by {
                if k < s.len() - 1 {
                    let i = choose|i: int| 0 <= i < rest.len() && rest[i] == k;
                    assert(at[i] == k);
                } else {
                    assert(at[rest.len() as int] == k);
                }
            }
            at
        } else {
            rest
        }
    }
}

/// After a node is added, looking up its id finds it, and every other id finds what it found
/// before.
pub proof fn lemma_add_node_found(s: SnapshotView, ns: NodeSnapshotView, id: NodeId)
    ensures
        ({
            let after = edited(s, MutationView::AddNode(ns)).nodes;
            &&& exists|i: int| #[trigger] first_with_id(after, ns.id, i) && after[i] == ns
            &&& id != ns.id ==> forall|i: int| #[trigger]
                first_with_id(after, id, i) <==> first_with_id(s.nodes, id, i)
            &&& id != ns.id ==> forall|i: int| #[trigger]
                first_with_id(after, id, i) ==> after[i] == s.nodes[i]
        }),
{
    let after = edited(s, MutationView::AddNode(ns)).nodes;
    let at = if has_id(s.nodes, ns.id) {
        let _ = lemma_first_exists(s.nodes, ns.id);
        choose|i: int| first_with_id(s.nodes, ns.id, i)
    } else {
        s.nodes.len() as int
    };
    assert(after[at] == ns);
    assert forall|j: int| 0 <= j < at implies (#[trigger] after[j]).id != ns.id by {
        assert(after[j] == s.nodes[j]);
    }
    assert(first_with_id(after, ns.id, at));
    if id != ns.id {
        assert forall|i: int| #[trigger]
            first_with_id(after, id, i) <==> first_with_id(s.nodes, id, i) by {
            if first_with_id(after, id, i) {
                assert forall|j: int| 0 <= j < i implies (#[trigger] s.nodes[j]).id != id by {
                    assert(after[j].id != id);
                }
            }
            if first_with_id(s.nodes, id, i) {
                assert forall|j: int| 0 <= j < i implies (#[trigger] after[j]).id != id by {
                    assert(s.nodes[j].id != id);
                }
            }
        }
    }
}

/// Adding the same node a second time changes nothing.
pub proof fn lemma_add_node_idempotent(s: SnapshotView, ns: NodeSnapshotView)
    ensures
        edited(edited(s, MutationView::AddNode(ns)), MutationView::AddNode(ns)) == edited(
            s,
            MutationView::AddNode(ns),
        ),
{
    lemma_add_node_found(s, ns, ns.id);
    let after = edited(s, MutationView::AddNode(ns)).nodes;
    let i = choose|i: int| #[trigger] first_with_id(after, ns.id, i) && after[i] == ns;
    let j = choose|j: int| first_with_id(after, ns.id, j);
    lemma_first_unique(after, ns.id, i, j);
    assert(has_id(after, ns.id));
    assert(after.update(j, ns) =~= after);
}

/// After a node is removed, its id is gone and no edge touches it; the other nodes and the edges
/// between them are kept, each once and in their order.
pub proof fn lemma_remove_node_clean(s: SnapshotView, id: NodeId)
    ensures
        ({
            let after = edited(s, MutationView::RemoveNode(id));
            &&& !has_id(after.nodes, id)
            &&& forall|k: int| 0 <= k < after.edges.len() ==> !touches(#[trigger] after.edges[k], id)
            &&& forall|i: int|
                0 <= i < s.nodes.len() && (#[trigger] s.nodes[i]).id != id ==> after.nodes.contains(
                    s.nodes[i],
                )
            &&& forall|k: int|
                0 <= k < s.edges.len() && !touches(#[trigger] s.edges[k], id)
                    ==> after.edges.contains(s.edges[k])
            &&& exists|at: Seq<int>| #[trigger] is_subsequence(after.nodes, s.nodes, at)
            &&& exists|at: Seq<int>| #[trigger] is_subsequence(after.edges, s.edges, at)
        }),
{
    let after = edited(s, MutationView::RemoveNode(id));
    let keep_node = |n: NodeSnapshotView| n.id != id;
    let keep_edge = |e: SnapshotEdge| !touches(e, id);
    let nodes_at = lemma_filter_positions(s.nodes, keep_node);
    let edges_at = lemma_filter_positions(s.edges, keep_edge);
    assert(is_subsequence(after.nodes, s.nodes, nodes_at));
    assert(is_subsequence(after.edges, s.edges, edges_at));
    assert forall|i: int|
        0 <= i < s.nodes.len() && (#[trigger] s.nodes[i]).id != id implies after.nodes.contains(
        s.nodes[i],
    ) by {
        assert(keep_node(s.nodes[i]));
        let k = choose|k: int| 0 <= k < nodes_at.len() && nodes_at[k] == i;
        assert(after.nodes[k] == s.nodes[i]);
    }
    assert forall|i: int|
        0 <= i < s.edges.len() && !touches(#[trigger] s.edges[i], id) implies after.edges.contains(
        s.edges[i],
    ) by {
        assert(keep_edge(s.edges[i]));
        let k = choose|k: int| 0 <= k < edges_at.len() && edges_at[k] == i;
        assert(after.edges[k] == s.edges[i]);
    }
    assert forall|i: int| 0 <= i < after.nodes.len() implies (#[trigger] after.nodes[i]).id != id by {
        assert(keep_node(s.nodes[nodes_at[i]]));
    }
    assert forall|k: int| 0 <= k < after.edges.len() implies !touches(
        #[trigger] after.edges[k],
        id,
    ) by {
        assert(keep_edge(s.edges[edges_at[k]]));
    }
}

/// `part` consists of the elements of `whole` at the strictly increasing positions `at`.
pub open spec fn is_subsequence<A>(part: Seq<A>, whole: Seq<A>, at: Seq<int>) -> bool {
    &&& at.len() == part.len()
    &&& forall|i: int|
        0 <= i < at.len() ==> 0 <= #[trigger] at[i] < whole.len() && part[i] == whole[at[i]]
    &&& forall|i: int, j: int| 0 <= i < j < at.len() ==> #[trigger] at[i] < #[trigger] at[j]
}

/// A link that was just added is removed again by its position, which leaves the snapshot as it
/// was.
pub proof fn lemma_add_link_undone(s: SnapshotView, se: SnapshotEdge, link: LinkId)
    requires
        link == s.edges.len(),
    ensures
        edited(edited(s, MutationView::AddLink(se)), MutationView::RemoveLink(link)) == s,
{
    assert(s.edges.push(se).remove(link as int) =~= s.edges);
}

/// A removed link shifts the later ones down by one position.
pub proof fn lemma_remove_link_shifts(s: SnapshotView, link: LinkId, k: int)
    requires
        link < s.edges.len(),
        0 <= k < s.edges.len() - 1,
    ensures
        ({
            let after = edited(s, MutationView::RemoveLink(link));
            &&& after.nodes == s.nodes
            &&& after.edges.len() == s.edges.len() - 1
            &&& after.edges[k] == if k < link {
                s.edges[k]
            } else {
                s.edges[k + 1]
            }
        }),
{
}

/// A node that was not there and is added and removed again leaves the snapshot as it was, if no
/// edge touches it.
pub proof fn lemma_add_node_undone(s: SnapshotView, ns: NodeSnapshotView)
    requires
        !has_id(s.nodes, ns.id),
        forall|k: int| 0 <= k < s.edges.len() ==> !touches(#[trigger] s.edges[k], ns.id),
    ensures
        edited(edited(s, MutationView::AddNode(ns)), MutationView::RemoveNode(ns.id)) == s,
{
    let added = edited(s, MutationView::AddNode(ns));
    let keep_node = |n: NodeSnapshotView| n.id != ns.id;
    let keep_edge = |e: SnapshotEdge| !touches(e, ns.id);
    lemma_filter_all(s.nodes, keep_node);
    lemma_filter_all(s.edges, keep_edge);
    assert(added.nodes.drop_last() =~= s.nodes);
    reveal_with_fuel(Seq::filter, 1);
}

proof fn lemma_filter_all<A>(s: Seq<A>, p: spec_fn(A) -> bool)
    requires
        forall|i: int| 0 <= i < s.len() ==> p(#[trigger] s[i]),
    ensures
        s.filter(p) == s,
    decreases s.len(),
{
    reveal_with_fuel(Seq::filter, 1);
    if s.len() > 0 {
        assert forall|i: int| 0 <= i < s.len() - 1 implies p(#[trigger] s.drop_last()[i]) by {
            assert(s.drop_last()[i] == s[i]);
        }
        lemma_filter_all(s.drop_last(), p);
        assert(s =~= s.drop_last().push(s.last()));
    } else {
        assert(s.filter(p) =~= s);
    }
}

/// Every edit keeps the ids of the nodes unique.
pub proof fn lemma_edits_keep_ids_unique(s: SnapshotView, m: MutationView)
    requires
        unique_ids(s.nodes),
    ensures
        unique_ids(edited(s, m).nodes),
{
    let after = edited(s, m).nodes;
    match m {
        MutationView::AddNode(ns) => {
            if has_id(s.nodes, ns.id) {
                let _ = lemma_first_exists(s.nodes, ns.id);
                let at = choose|i: int| first_with_id(s.nodes, ns.id, i);
                assert forall|i: int, j: int| 0 <= i < j < after.len() implies (
                #[trigger] after[i]).id != (#[trigger] after[j]).id by {
                    assert(s.nodes[i].id != s.nodes[j].id);
                    assert(after[i].id == s.nodes[i].id);
                    assert(after[j].id == s.nodes[j].id);
                }
            } else {
                assert forall|i: int, j: int| 0 <= i < j < after.len() implies (
                #[trigger] after[i]).id != (#[trigger] after[j]).id by {
                    assert(s.nodes[i].id == after[i].id);
                }
            }
        },
        MutationView::RemoveNode(id) => {
            let at = lemma_filter_positions(s.nodes, |n: NodeSnapshotView| n.id != id);
            assert forall|i: int, j: int| 0 <= i < j < after.len() implies (
            #[trigger] after[i]).id != (#[trigger] after[j]).id by {
                assert(at[i] < at[j]);
                assert(s.nodes[at[i]].id != s.nodes[at[j]].id);
            }
        },
        _ => {},
    }
}

/// No edit leaves an edge without its nodes, unless it adds such an edge.
pub proof fn lemma_edits_keep_edges_joined(s: SnapshotView, m: MutationView)
    requires
        no_dangling(s),
        m matches MutationView::AddLink(se) ==> has_id(s.nodes, se.from.0) && has_id(
            s.nodes,
            se.to.0,
        ),
    ensures
        no_dangling(edited(s, m)),
{
    let after = edited(s, m);
    match m {
        MutationView::AddNode(ns) => {
            assert forall|id: NodeId| has_id(s.nodes, id) implies #[trigger] has_id(
                after.nodes,
                id,
            ) by {
                let i = choose|i: int| 0 <= i < s.nodes.len() && (#[trigger] s.nodes[i]).id == id;
                if has_id(s.nodes, ns.id) {
                    let _ = lemma_first_exists(s.nodes, ns.id);
                }
                assert(after.nodes[i].id == id);
            }
        },
        MutationView::RemoveNode(id) => {
            lemma_remove_node_clean(s, id);
            let edges_at = lemma_filter_positions(s.edges, |e: SnapshotEdge| !touches(e, id));
            assert forall|other: NodeId| other != id && has_id(s.nodes, other) implies #[trigger] has_id(
                after.nodes,
                other,
            ) by {
                let i = choose|i: int| 0 <= i < s.nodes.len() && (#[trigger] s.nodes[i]).id == other;
                let k = choose|k: int| 0 <= k < after.nodes.len() && after.nodes[k] == s.nodes[i];
                assert(after.nodes[k].id == other);
            }
            assert forall|k: int| 0 <= k < after.edges.len() implies has_id(
                after.nodes,
                (#[trigger] after.edges[k]).from.0,
            ) && has_id(after.nodes, after.edges[k].to.0) by {
                assert(after.edges[k] == s.edges[edges_at[k]]);
            }
        },
        MutationView::AddLink(se) => {
            assert forall|k: int| 0 <= k < after.edges.len() implies has_id(
                after.nodes,
                (#[trigger] after.edges[k]).from.0,
            ) && has_id(after.nodes, after.edges[k].to.0) by {
                if k < s.edges.len() {
                    assert(after.edges[k] == s.edges[k]);
                }
            }
        },
        MutationView::RemoveLink(link) => {
            if link < s.edges.len() {
                assert forall|k: int| 0 <= k < after.edges.len() implies has_id(
                    after.nodes,
                    (#[trigger] after.edges[k]).from.0,
                ) && has_id(after.nodes, after.edges[k].to.0) by {
                    let j = if k < link {
                        k
                    } else {
                        k + 1
                    };
                    assert(after.edges[k] == s.edges[j]);
                }
            }
        },
    }
}

/// `m` says of a port what `d` says: its direction, its channel count and its sample format.
pub open spec fn describes(m: PortMeta, d: PortDescriptor) -> bool {
    &&& m.direction is Input <==> d.direction is Input
    &&& m.direction is Output <==> d.direction is Output
    &&& m.channels == d.channels
    &&& m.sample_format is F32 <==> d.sample_format is F32
    &&& m.sample_format is F64 <==> d.sample_format is F64
    &&& m.sample_format is I16 <==> d.sample_format is I16
    &&& m.sample_format is I32 <==> d.sample_format is I32
}

/// The mirror of a port says of it what the port says of itself, and the mirrors of several ports do
/// so one for one.
pub proof fn lemma_mirror_describes_port(d: PortDescriptor, m: PortMeta, ports: Seq<PortDescriptor>)
    ensures
        describes(meta_of(d), d),
        describes(m, descriptor_of(m)),
        metas_of(ports).len() == ports.len(),
        forall|i: int| 0 <= i < ports.len() ==> describes(#[trigger] metas_of(ports)[i], ports[i]),
{
    assert forall|i: int| 0 <= i < ports.len() implies describes(
        #[trigger] metas_of(ports)[i],
        ports[i],
    ) by {
        assert(metas_of(ports)[i] == meta_of(ports[i]));
    }
}

/// Looking up an id finds the first node of the list that has it, and nothing if none has it.
pub proof fn lemma_lookup_finds_the_first(nodes: Seq<NodeSnapshotView>, id: NodeId, i: int)
    ensures
        has_id(nodes, id) <==> exists|j: int| 0 <= j < nodes.len() && (#[trigger] nodes[j]).id == id,
        first_with_id(nodes, id, i) ==> 0 <= i < nodes.len() && nodes[i].id == id,
        first_with_id(nodes, id, i) ==> forall|j: int|
            0 <= j < i ==> (#[trigger] nodes[j]).id != id,
        0 <= i < nodes.len() && nodes[i].id == id && (forall|j: int|
            0 <= j < i ==> (#[trigger] nodes[j]).id != id) ==> first_with_id(nodes, id, i),
{
}

/// A node that is added takes the place of the first node with its id; without one it comes last. All
/// other nodes keep their places, and the edges stay as they are.
pub proof fn lemma_added_node_takes_its_place(
    s: SnapshotView,
    ns: NodeSnapshotView,
    after: SnapshotView,
)
    requires
        after == edited(s, MutationView::AddNode(ns)),
    ensures
        after.edges == s.edges,
        (forall|i: int| 0 <= i < s.nodes.len() ==> (#[trigger] s.nodes[i]).id != ns.id) ==> {
            &&& after.nodes.len() == s.nodes.len() + 1
            &&& after.nodes[s.nodes.len() as int] == ns
            &&& forall|i: int| 0 <= i < s.nodes.len() ==> #[trigger] after.nodes[i] == s.nodes[i]
        },
        forall|at: int|
            0 <= at < s.nodes.len() && (#[trigger] s.nodes[at]).id == ns.id && (forall|i: int|
                0 <= i < at ==> (#[trigger] s.nodes[i]).id != ns.id) ==> {
                &&& after.nodes.len() == s.nodes.len()
                &&& after.nodes[at] == ns
                &&& forall|i: int|
                    0 <= i < s.nodes.len() && i != at ==> #[trigger] after.nodes[i] == s.nodes[i]
            },
{
    assert forall|at: int|
        0 <= at < s.nodes.len() && (#[trigger] s.nodes[at]).id == ns.id && (forall|i: int|
            0 <= i < at ==> (#[trigger] s.nodes[i]).id != ns.id) implies {
        &&& after.nodes.len() == s.nodes.len()
        &&& after.nodes[at] == ns
        &&& forall|i: int|
            0 <= i < s.nodes.len() && i != at ==> #[trigger] after.nodes[i] == s.nodes[i]
    } by {
        assert(first_with_id(s.nodes, ns.id, at));
        let first = choose|i: int| first_with_id(s.nodes, ns.id, i);
        lemma_first_unique(s.nodes, ns.id, first, at);
    }
}

/// `part` consists of exactly the elements of `whole` that stand at the positions `at`, in their
/// order.
pub open spec fn picks<A>(part: Seq<A>, whole: Seq<A>, at: Seq<int>) -> bool {
    &&& part.len() == at.len()
    &&& forall|i: int| 0 <= i < at.len() ==> 0 <= #[trigger] at[i] < whole.len()
    &&& forall|i: int| 0 <= i < at.len() ==> part[i] == whole[#[trigger] at[i]]
    &&& forall|i: int, j: int| 0 <= i < j < at.len() ==> #[trigger] at[i] < #[trigger] at[j]
}

/// Removing a node removes every node with that id and every edge at whose ends that id stands, and
/// nothing else: all other nodes and edges remain, each as often as it was there, in their order.
pub proof fn lemma_removed_node_takes_its_edges_along(
    s: SnapshotView,
    id: NodeId,
    after: SnapshotView,
)
    requires
        after == edited(s, MutationView::RemoveNode(id)),
    ensures
        exists|at: Seq<int>|
            {
                &&& #[trigger] picks(after.nodes, s.nodes, at)
                &&& forall|k: int| #[trigger]
                    at.contains(k) <==> 0 <= k < s.nodes.len() && s.nodes[k].id != id
            },
        exists|at: Seq<int>|
            {
                &&& #[trigger] picks(after.edges, s.edges, at)
                &&& forall|k: int| #[trigger]
                    at.contains(k) <==> 0 <= k < s.edges.len() && s.edges[k].from.0 != id
                        && s.edges[k].to.0 != id
            },
{
    let keep_node = |n: NodeSnapshotView| n.id != id;
    let keep_edge = |e: SnapshotEdge| !touches(e, id);
    let nodes_at = lemma_filter_positions(s.nodes, keep_node);
    let edges_at = lemma_filter_positions(s.edges, keep_edge);
    assert(picks(after.nodes, s.nodes, nodes_at));
    assert(picks(after.edges, s.edges, edges_at));
    assert forall|k: int| #[trigger]
        nodes_at.contains(k) <==> 0 <= k < s.nodes.len() && s.nodes[k].id != id by {
        if nodes_at.contains(k) {
            let i = choose|i: int| 0 <= i < nodes_at.len() && nodes_at[i] == k;
            assert(keep_node(s.nodes[nodes_at[i]]));
        }
        if 0 <= k < s.nodes.len() && s.nodes[k].id != id {
            assert(keep_node(s.nodes[k]));
        }
    }
    assert forall|k: int| #[trigger]
        edges_at.contains(k) <==> 0 <= k < s.edges.len() && s.edges[k].from.0 != id
            && s.edges[k].to.0 != id by {
        if edges_at.contains(k) {
            let i = choose|i: int| 0 <= i < edges_at.len() && edges_at[i] == k;
            assert(keep_edge(s.edges[edges_at[i]]));
        }
        if 0 <= k < s.edges.len() && s.edges[k].from.0 != id && s.edges[k].to.0 != id {
            assert(keep_edge(s.edges[k]));
        }
    }
}

/// A link that is added comes last, whether or not it was there before. A link that is removed leaves
/// the others in their order; a position without a link removes nothing. The nodes stay as they are.
pub proof fn lemma_links_are_added_last_and_removed_by_position(
    s: SnapshotView,
    se: SnapshotEdge,
    link: LinkId,
    added: SnapshotView,
    removed: SnapshotView,
)
    requires
        added == edited(s, MutationView::AddLink(se)),
        removed == edited(s, MutationView::RemoveLink(link)),
    ensures
        added.nodes == s.nodes,
        added.edges.len() == s.edges.len() + 1,
        added.edges[s.edges.len() as int] == se,
        forall|k: int| 0 <= k < s.edges.len() ==> #[trigger] added.edges[k] == s.edges[k],
        removed.nodes == s.nodes,
        link >= s.edges.len() ==> removed.edges == s.edges,
        link < s.edges.len() ==> removed.edges.len() == s.edges.len() - 1,
        forall|k: int| 0 <= k < link < s.edges.len() ==> #[trigger] removed.edges[k] == s.edges[k],
        forall|k: int|
            link < s.edges.len() && link <= k < s.edges.len() - 1 ==> #[trigger] removed.edges[k]
                == s.edges[k + 1],
{
}

/// A snapshot shows all that it holds.
pub proof fn lemma_snapshots_show_all(ns: NodeSnapshot, s: TopologySnapshot)
    ensures
        ns@.id == ns.id,
        ns@.inputs == ns.inputs@,
        ns@.outputs == ns.outputs@,
        s@.nodes.len() == s.nodes@.len(),
        forall|i: int| 0 <= i < s.nodes@.len() ==> #[trigger] s@.nodes[i] == s.nodes@[i]@,
        s@.edges == s.edges@,
{
}

/// An event shows what it says: which change it is, and of which node or link.
pub proof fn lemma_events_show_all(e: TopologyEvent)
    ensures
        e matches TopologyEvent::NodeAdded(ns) ==> e@ == EventView::NodeAdded(ns@),
        e matches TopologyEvent::NodeRemoved(id) ==> e@ == EventView::NodeRemoved(id),
        e matches TopologyEvent::LinkAdded(se) ==> e@ == EventView::LinkAdded(se),
        e matches TopologyEvent::LinkRemoved(id) ==> e@ == EventView::LinkRemoved(id),
        e is GraphCompiled ==> e@ is GraphCompiled,
        e is GraphReset ==> e@ is GraphReset,
{
}

/// An edit shows what it asks for.
pub proof fn lemma_edits_show_all(m: Mutation)
    ensures
        m matches Mutation::AddNode(ns) ==> m@ == MutationView::AddNode(ns@),
        m matches Mutation::RemoveNode(id) ==> m@ == MutationView::RemoveNode(id),
        m matches Mutation::AddLink(se) ==> m@ == MutationView::AddLink(se),
        m matches Mutation::RemoveLink(id) ==> m@ == MutationView::RemoveLink(id),
{
}

} // verus!
