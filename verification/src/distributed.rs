//! Graphs that are spread over several hosts: where remote nodes live, which ports cross the
//! network, and what a partition of a graph that runs here consists of.

use crate::error::GraphError;
use crate::graph::{Graph, GraphConfig, NodeId, PortIdx};
use crate::node::{AudioNode, NodeModel, ProcessContext};
use crate::topology_pub::PortDir;
use vstd::prelude::*;

verus! {

/// Which transport should carry a network link.
#[derive(Debug, Clone, Copy, PartialEq, Eq, Hash, Structural)]
pub enum TransportHint {
    /// Plain RTP over UDP.
    Rtp,
    /// RTP that complies with AES67.
    Aes67,
    /// A transport that the caller defines.
    Custom,
}

/// A node on a remote host: where it runs and how to reach it.
#[derive(Debug, PartialEq, Eq)]
pub struct RemoteNode {
    /// The id of the node in the graph that it comes from.
    pub node_id: NodeId,
    /// Host name or IP address of the remote host.
    pub host: String,
    /// Network port on the remote host.
    pub port: u16,
    /// Suggested transport.
    pub transport_hint: TransportHint,
}

/// The contents of a [`RemoteNode`].
#[verifier::ext_equal]
pub struct RemoteNodeView {
    pub node_id: NodeId,
    pub host: Seq<char>,
    pub port: u16,
    pub transport_hint: TransportHint,
}

impl View for RemoteNode {
    type V = RemoteNodeView;

    open spec fn view(&self) -> RemoteNodeView {
        RemoteNodeView {
            node_id: self.node_id,
            host: self.host@,
            port: self.port,
            transport_hint: self.transport_hint,
        }
    }
}

impl Clone for RemoteNode {
    fn clone(&self) -> (r: Self)
        ensures
            r@ == self@,
    {
        RemoteNode {
            node_id: self.node_id,
            host: self.host.clone(),
            port: self.port,
            transport_hint: self.transport_hint,
        }
    }
}

/// Whether a port is local or a network link.
#[derive(Debug, PartialEq, Eq)]
pub enum PortKind {
    /// A local port, whose audio never crosses the network.
    Local,
    /// A network link: the audio of the port is exchanged with `remote`.
    Network {
        /// The node at the far end.
        remote: RemoteNode,
    },
}

/// The contents of a [`PortKind`].
#[verifier::ext_equal]
pub enum PortKindView {
    Local,
    Network { remote: RemoteNodeView },
}

impl View for PortKind {
    type V = PortKindView;

    open spec fn view(&self) -> PortKindView {
        match self {
            PortKind::Local => PortKindView::Local,
            PortKind::Network { remote } => PortKindView::Network { remote: remote@ },
        }
    }
}

impl Clone for PortKind {
    fn clone(&self) -> (r: Self)
        ensures
            r@ == self@,
    {
        match self {
            PortKind::Local => PortKind::Local,
            PortKind::Network { remote } => PortKind::Network { remote: remote.clone() },
        }
    }
}

/// A port at which audio crosses from the local partition to the network, or back.
#[derive(Debug, PartialEq, Eq)]
pub struct BoundaryPort {
    /// The local node.
    pub node: NodeId,
    /// The index of the port on the node.
    pub port: PortIdx,
    /// Whether the port is local or a network link.
    pub kind: PortKind,
    /// The direction of the port.
    pub direction: PortDir,
}

/// The contents of a [`BoundaryPort`].
#[verifier::ext_equal]
pub struct BoundaryPortView {
    pub node: NodeId,
    pub port: PortIdx,
    pub kind: PortKindView,
    pub direction: PortDir,
}

impl View for BoundaryPort {
    type V = BoundaryPortView;

    open spec fn view(&self) -> BoundaryPortView {
        BoundaryPortView {
            node: self.node,
            port: self.port,
            kind: self.kind@,
            direction: self.direction,
        }
    }
}

impl Clone for BoundaryPort {
    fn clone(&self) -> (r: Self)
        ensures
            r@ == self@,
    {
        BoundaryPort {
            node: self.node,
            port: self.port,
            kind: self.kind.clone(),
            direction: self.direction,
        }
    }
}

/// The contents of a list of boundary ports.
pub open spec fn boundary_views(ports: Seq<BoundaryPort>) -> Seq<BoundaryPortView> {
    Seq::new(ports.len(), |i: int| ports[i]@)
}

/// What a local partition consists of: the nodes that run here and the ports that cross the
/// network. It is a hint: the partitioning itself is decided elsewhere.
#[derive(Debug, PartialEq, Eq)]
pub struct PartitionHint {
    /// The nodes that run in this partition.
    pub local_nodes: Vec<NodeId>,
    /// The ports that cross the network.
    pub boundary_ports: Vec<BoundaryPort>,
}

/// The contents of a [`PartitionHint`].
#[verifier::ext_equal]
pub struct PartitionHintView {
    pub local_nodes: Seq<NodeId>,
    pub boundary_ports: Seq<BoundaryPortView>,
}

impl View for PartitionHint {
    type V = PartitionHintView;

    open spec fn view(&self) -> PartitionHintView {
        PartitionHintView {
            local_nodes: self.local_nodes@,
            boundary_ports: boundary_views(self.boundary_ports@),
        }
    }
}

impl Clone for PartitionHint {
    fn clone(&self) -> (r: Self)
        ensures
            r@ == self@,
    {
        let local_nodes: Vec<NodeId> = self.local_nodes.clone();
        assert(local_nodes@ =~= self.local_nodes@);
        let mut boundary_ports: Vec<BoundaryPort> = Vec::new();
        let mut i: usize = 0;
        while i < self.boundary_ports.len()
            invariant
                i <= self.boundary_ports@.len(),
                boundary_ports@.len() == i,
                forall|k: int|
                    0 <= k < i ==> (#[trigger] boundary_ports@[k])@ == self.boundary_ports@[k]@,
            decreases self.boundary_ports@.len() - i,
        {
            boundary_ports.push(self.boundary_ports[i].clone());
            i = i + 1;
        }
        assert(boundary_views(boundary_ports@) =~= boundary_views(self.boundary_ports@));
        PartitionHint { local_nodes, boundary_ports }
    }
}

/// A declaration that a port is linked to a remote node.
pub open spec fn declaration(d: (NodeId, PortIdx, RemoteNode)) -> (
    NodeId,
    PortIdx,
    RemoteNodeView,
) {
    (d.0, d.1, d.2@)
}

/// The contents of a list of declarations.
pub open spec fn declarations(ds: Seq<(NodeId, PortIdx, RemoteNode)>) -> Seq<
    (NodeId, PortIdx, RemoteNodeView),
> {
    Seq::new(ds.len(), |i: int| declaration(ds[i]))
}

/// The direction of a port: an output if the node has an output of that index, otherwise an input
/// if it has such an input.
pub open spec fn port_direction(nodes: Seq<NodeModel>, node: NodeId, port: PortIdx) -> Option<
    PortDir,
> {
    if node >= nodes.len() {
        None
    } else if port < nodes[node as int].outputs.len() {
        Some(PortDir::Output)
    } else if port < nodes[node as int].inputs.len() {
        Some(PortDir::Input)
    } else {
        None
    }
}

/// The boundary port of a declaration whose port has the given direction.
pub open spec fn network_port(
    d: (NodeId, PortIdx, RemoteNodeView),
    direction: PortDir,
) -> BoundaryPortView {
    BoundaryPortView {
        node: d.0,
        port: d.1,
        kind: PortKindView::Network { remote: d.2 },
        direction,
    }
}

/// The boundary ports of a list of declarations, in their order. A declaration of a port that does
/// not exist is skipped.
pub open spec fn network_ports(
    nodes: Seq<NodeModel>,
    ds: Seq<(NodeId, PortIdx, RemoteNodeView)>,
) -> Seq<BoundaryPortView>
    decreases ds.len(),
{
    if ds.len() == 0 {
        Seq::empty()
    } else {
        let front = network_ports(nodes, ds.drop_last());
        match port_direction(nodes, ds.last().0, ds.last().1) {
            Some(direction) => front.push(network_port(ds.last(), direction)),
            None => front,
        }
    }
}

/// The hint for a partition that runs every node of a graph.
pub open spec fn whole_graph_hint(
    nodes: Seq<NodeModel>,
    ds: Seq<(NodeId, PortIdx, RemoteNodeView)>,
) -> PartitionHintView {
    PartitionHintView {
        local_nodes: Seq::new(nodes.len(), |i: int| i as NodeId),
        boundary_ports: network_ports(nodes, ds),
    }
}

impl Graph {
    /// Derives a partition hint from declarations of the form `(node, port, remote)`. There is
    /// exactly one hint: every node of the graph runs locally, and each declared port that exists
    /// becomes a network port. A port index that is valid for an output and an input means the
    /// output; a declaration of a port that does not exist is skipped.
    #[must_use]
    pub fn partition_hints(&self, boundaries: &[(NodeId, PortIdx, RemoteNode)]) -> (r: Vec<
        PartitionHint,
    >)
        ensures
            r@.len() == 1,
            r@[0]@ == whole_graph_hint(self@.nodes, declarations(boundaries@)),
    {
        let count: usize = self.node_count();
        let mut local_nodes: Vec<NodeId> = Vec::new();
        let mut n: NodeId = 0;
        while n < count
            invariant
                n <= count,
                local_nodes@.len() == n,
                forall|k: int| 0 <= k < n ==> #[trigger] local_nodes@[k] == k,
            decreases count - n,
        {
            local_nodes.push(n);
            n = n + 1;
        }
        let ghost nodes = self@.nodes;
        let ghost ds = declarations(boundaries@);
        let mut boundary_ports: Vec<BoundaryPort> = Vec::new();
        let mut i: usize = 0;
        assert(boundary_views(boundary_ports@) =~= network_ports(nodes, ds.take(0)));
        while i < boundaries.len()
            invariant
                i <= boundaries@.len(),
                nodes == self@.nodes,
                ds == declarations(boundaries@),
                boundary_views(boundary_ports@) == network_ports(nodes, ds.take(i as int)),
            decreases boundaries@.len() - i,
        {
            let ghost before = boundary_ports@;
            assert(ds.take(i + 1).drop_last() =~= ds.take(i as int));
            let node: NodeId = boundaries[i].0;
            let port: PortIdx = boundaries[i].1;
            match self.boundary_port_direction(node, port) {
                Some(direction) => {
                    let remote = boundaries[i].2.clone();
                    boundary_ports.push(
                        BoundaryPort { node, port, kind: PortKind::Network { remote }, direction },
                    );
                    assert(boundary_views(boundary_ports@) =~= boundary_views(before).push(
                        network_port(ds[i as int], direction),
                    ));
                },
                None => {},
            }
            i = i + 1;
        }
        assert(ds.take(i as int) =~= ds);
        let hint = PartitionHint { local_nodes, boundary_ports };
        assert(hint@.local_nodes =~= whole_graph_hint(nodes, ds).local_nodes);
        let mut hints: Vec<PartitionHint> = Vec::new();
        hints.push(hint);
        hints
    }
}

/// A local partition: a graph and the ports at which audio crosses the network.
pub struct GraphPartition {
    graph: Graph,
    boundary: Vec<BoundaryPort>,
}

impl GraphPartition {
    /// The graph of the partition.
    pub closed spec fn local(&self) -> Graph {
        self.graph
    }

    /// The boundary ports of the partition.
    pub closed spec fn ports(&self) -> Seq<BoundaryPort> {
        self.boundary@
    }

    /// Creates a partition from a graph and its boundary ports.
    #[must_use]
    pub fn new(graph: Graph, boundary: Vec<BoundaryPort>) -> (r: Self)
        ensures
            r.local() == graph,
            r.ports() == boundary@,
    {
        GraphPartition { graph, boundary }
    }

    /// Compiles the graph; see [`Graph::compile`].
    pub fn compile(&mut self, config: GraphConfig) -> (r: Result<(), GraphError>)
        requires
            old(self).local()@.wf(),
            crate::graph::compile_fits(old(self).local()@, config),
        ensures
            final(self).local()@.wf(),
            final(self).ports() == old(self).ports(),
            crate::graph::compile_outcome(
                old(self).local()@,
                config,
                r,
                final(self).local()@,
            ),
    {
        self.graph.compile(config)
    }

    /// Processes one cycle of the graph; see [`Graph::process_cycle`].
    pub fn process_cycle(&mut self, ctx: &mut ProcessContext) -> (r: Result<(), GraphError>)
        requires
            old(self).local()@.wf(),
        ensures
            final(self).local()@.wf(),
            final(self).ports() == old(self).ports(),
            crate::graph::cycle_outcome(
                old(self).local()@,
                *old(ctx),
                r,
                final(self).local()@,
                *final(ctx),
            ),
    {
        self.graph.process_cycle(ctx)
    }

    /// Returns the boundary ports.
    #[must_use]
    pub fn boundary(&self) -> (r: &[BoundaryPort])
        ensures
            r@ == self.ports(),
    {
        self.boundary.as_slice()
    }

    /// Borrows the graph.
    #[must_use]
    pub fn graph(&self) -> (r: &Graph)
        ensures
            *r == self.local(),
    {
        &self.graph
    }

    /// Borrows the graph for changes.
    pub fn graph_mut(&mut self) -> (r: &mut Graph)
        ensures
            *r == old(self).local(),
            final(self).local() == *final(r),
            final(self).ports() == old(self).ports(),
    {
        &mut self.graph
    }
}

/// A node that exchanges audio with a remote node.
///
/// Its worker thread receives and sends over the network and pushes what it receives into a ring;
/// its `process`, like that of [`RingSource`](crate::ring::RingSource) and
/// [`RingSink`](crate::ring::RingSink), only pops from the ring or copies into a frame of fixed
/// size.
pub trait NetworkLinkNode: AudioNode {
    /// Returns the remote node at the far end.
    #[must_use]
    fn remote(&self) -> &RemoteNode;
}

/// Each boundary port of a hint is a network port of a node of the graph, in the direction in which
/// the node has that port, and stems from a declaration.
pub proof fn lemma_hint_ports_exist(
    nodes: Seq<NodeModel>,
    ds: Seq<(NodeId, PortIdx, RemoteNodeView)>,
    i: int,
)
    requires
        0 <= i < network_ports(nodes, ds).len(),
    ensures
        ({
            let bp = network_ports(nodes, ds)[i];
            &&& port_direction(nodes, bp.node, bp.port) == Some(bp.direction)
            &&& bp.node < nodes.len()
            &&& exists|k: int|
                0 <= k < ds.len() && bp == network_port(#[trigger] ds[k], bp.direction)
        }),
    decreases ds.len(),
{
    let front = network_ports(nodes, ds.drop_last());
    if i < front.len() {
        lemma_hint_ports_exist(nodes, ds.drop_last(), i);
        let bp = front[i];
        let k = choose|k: int|
            0 <= k < ds.drop_last().len() && bp == network_port(
                #[trigger] ds.drop_last()[k],
                bp.direction,
            );
        assert(ds[k] == ds.drop_last()[k]);
    } else {
        assert(ds[ds.len() - 1] == ds.last());
    }
}

/// If every declared port exists, none is skipped: the boundary ports are those of the
/// declarations, one for one.
pub proof fn lemma_hint_keeps_existing(
    nodes: Seq<NodeModel>,
    ds: Seq<(NodeId, PortIdx, RemoteNodeView)>,
)
    requires
        forall|k: int|
            0 <= k < ds.len() ==> port_direction(
                nodes,
                (#[trigger] ds[k]).0,
                ds[k].1,
            ) is Some,
    ensures
        network_ports(nodes, ds) == Seq::new(
            ds.len(),
            |k: int| network_port(ds[k], port_direction(nodes, ds[k].0, ds[k].1)->0),
        ),
    decreases ds.len(),
{
    let all = Seq::new(
        ds.len(),
        |k: int| network_port(ds[k], port_direction(nodes, ds[k].0, ds[k].1)->0),
    );
    if ds.len() > 0 {
        let shorter = ds.drop_last();
        assert forall|k: int| 0 <= k < shorter.len() implies port_direction(
            nodes,
            (#[trigger] shorter[k]).0,
            shorter[k].1,
        ) is Some by {
            assert(shorter[k] == ds[k]);
        }
        lemma_hint_keeps_existing(nodes, shorter);
        assert(ds[ds.len() - 1] == ds.last());
        assert(network_ports(nodes, ds) =~= all);
    } else {
        assert(network_ports(nodes, ds) =~= all);
    }
}

/// A hint depends on the ports of the nodes alone.
pub proof fn lemma_hint_depends_on_ports(
    nodes: Seq<NodeModel>,
    other: Seq<NodeModel>,
    ds: Seq<(NodeId, PortIdx, RemoteNodeView)>,
)
    requires
        nodes.len() == other.len(),
        forall|i: int|
            0 <= i < nodes.len() ==> (#[trigger] other[i]).inputs == nodes[i].inputs
                && other[i].outputs == nodes[i].outputs,
    ensures
        whole_graph_hint(nodes, ds) == whole_graph_hint(other, ds),
    decreases ds.len(),
{
    if ds.len() > 0 {
        lemma_hint_depends_on_ports(nodes, other, ds.drop_last());
        let d = ds.last();
        assert(port_direction(nodes, d.0, d.1) == port_direction(other, d.0, d.1)) by {
            if d.0 < nodes.len() {
                assert(other[d.0 as int].inputs == nodes[d.0 as int].inputs);
            }
        }
    }
    assert(whole_graph_hint(nodes, ds) =~= whole_graph_hint(other, ds));
}

/// A hint and what it consists of show all that they hold.
pub proof fn lemma_hints_show_all(
    remote: RemoteNode,
    kind: PortKind,
    port: BoundaryPort,
    hint: PartitionHint,
    ds: Seq<(NodeId, PortIdx, RemoteNode)>,
)
    ensures
        remote@.node_id == remote.node_id,
        remote@.host == remote.host@,
        remote@.port == remote.port,
        remote@.transport_hint == remote.transport_hint,
        kind is Local ==> kind@ is Local,
        kind matches PortKind::Network { remote: far } ==> kind@ == (PortKindView::Network {
            remote: far@,
        }),
        port@.node == port.node,
        port@.port == port.port,
        port@.kind == port.kind@,
        port@.direction == port.direction,
        hint@.local_nodes == hint.local_nodes@,
        hint@.boundary_ports.len() == hint.boundary_ports@.len(),
        forall|i: int|
            0 <= i < hint.boundary_ports@.len() ==> #[trigger] hint@.boundary_ports[i]
                == hint.boundary_ports@[i]@,
        declarations(ds).len() == ds.len(),
        forall|i: int|
            0 <= i < ds.len() ==> (#[trigger] declarations(ds)[i]).0 == ds[i].0 && declarations(
                ds,
            )[i].1 == ds[i].1 && declarations(ds)[i].2 == ds[i].2@,
{
}

/// The node has an output port or an input port of the given index.
pub open spec fn has_port(nodes: Seq<NodeModel>, node: NodeId, port: PortIdx) -> bool {
    node < nodes.len() && (port < nodes[node as int].outputs.len() || port
        < nodes[node as int].inputs.len())
}

/// A hint names every node of the graph, by ascending id, and one network port for each declaration
/// of a port that the graph has, in their order: of that node and index, with the remote node that
/// was declared, an output if the node has an output of that index and an input otherwise.
/// Declarations of ports that do not exist leave no trace.
pub proof fn lemma_hint_follows_the_declarations(
    nodes: Seq<NodeModel>,
    ds: Seq<(NodeId, PortIdx, RemoteNodeView)>,
    hint: PartitionHintView,
) -> (at: Seq<int>)
    requires
        nodes.len() <= usize::MAX,
        hint == whole_graph_hint(nodes, ds),
    ensures
        hint.local_nodes.len() == nodes.len(),
        forall|i: int| 0 <= i < nodes.len() ==> #[trigger] hint.local_nodes[i] == i,
        at.len() == hint.boundary_ports.len(),
        forall|i: int| 0 <= i < at.len() ==> 0 <= #[trigger] at[i] < ds.len(),
        forall|i: int, j: int| 0 <= i < j < at.len() ==> #[trigger] at[i] < #[trigger] at[j],
        forall|k: int| #[trigger]
            at.contains(k) <==> 0 <= k < ds.len() && has_port(nodes, ds[k].0, ds[k].1),
        forall|i: int|
            0 <= i < at.len() ==> {
                let port = hint.boundary_ports[i];
                let d = ds[#[trigger] at[i]];
                &&& port.node == d.0
                &&& port.port == d.1
                &&& port.kind == (PortKindView::Network { remote: d.2 })
                &&& port.direction is Output <==> d.1 < nodes[d.0 as int].outputs.len()
            },
    decreases ds.len(),
{
    if ds.len() == 0 {
        Seq::empty()
    } else {
        let shorter = ds.drop_last();
        let n = ds.len() - 1;
        let front = lemma_hint_follows_the_declarations(
            nodes,
            shorter,
            whole_graph_hint(nodes, shorter),
        );
        assert forall|k: int| #[trigger]
            front.contains(k) <==> 0 <= k < n && has_port(nodes, ds[k].0, ds[k].1) by {
            if 0 <= k < n {
                assert(shorter[k] == ds[k]);
            }
        }
        if has_port(nodes, ds[n].0, ds[n].1) {
            let at = front.push(n);
            assert forall|k: int| #[trigger]
                at.contains(k) <==> 0 <= k < ds.len() && has_port(nodes, ds[k].0, ds[k].1) by {
                if at.contains(k) {
                    let i = choose|i: int| 0 <= i < at.len() && at[i] == k;
                    if i < front.len() {
                        assert(front[i] == k);
                        assert(front.contains(k));
                    }
                }
                if 0 <= k < n && has_port(nodes, ds[k].0, ds[k].1) {
                    assert(front.contains(k));
                    let i = choose|i: int| 0 <= i < front.len() && front[i] == k;
                    assert(at[i] == k);
                }
                if k == n {
                    assert(at[front.len() as int] == k);
                }
            }
            assert forall|i: int| 0 <= i < at.len() implies {
                let port = hint.boundary_ports[i];
                let d = ds[#[trigger] at[i]];
                &&& port.node == d.0
                &&& port.port == d.1
                &&& port.kind == (PortKindView::Network { remote: d.2 })
                &&& port.direction is Output <==> d.1 < nodes[d.0 as int].outputs.len()
            } by {
                if i < front.len() {
                    assert(at[i] == front[i]);
                    assert(shorter[front[i]] == ds[front[i]]);
                    assert(hint.boundary_ports[i] == network_ports(nodes, shorter)[i]);
                }
            }
            at
        } else {
            assert forall|i: int| 0 <= i < front.len() implies ds[#[trigger] front[i]]
                == shorter[front[i]] by {}
            front
        }
    }
}

} // verus!
