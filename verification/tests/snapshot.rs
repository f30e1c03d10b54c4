use audio_graph_bsd::{
    AudioFrame, AudioNode, Graph, GraphConfig, GraphError, Mutation, NodeSnapshot, PortDescriptor,
    PortDir, PortDirection, PortMeta, ProcessContext, SampleFmt, SampleFormat, SnapshotEdge,
    SnapshotSource, TopologyEvent, TopologyObserver, TopologySnapshot,
};

/// Zero inputs, one output, and a `process` that does nothing: what is fed survives the cycle.
struct SourceNode {
    out_port: [PortDescriptor; 1],
}

impl SourceNode {
    fn new(channels: u16) -> Self {
        SourceNode { out_port: [PortDescriptor::output(channels, SampleFormat::F32)] }
    }
}

impl AudioNode for SourceNode {
    fn inputs(&self) -> &[PortDescriptor] {
        &[]
    }

    fn outputs(&self) -> &[PortDescriptor] {
        &self.out_port
    }

    fn process(&mut self, _: &mut ProcessContext, _: &[AudioFrame], _: &mut [AudioFrame]) {}
}

/// One input, one output: scales every sample by `gain`.
struct GainNode {
    gain: f32,
    in_port: [PortDescriptor; 1],
    out_port: [PortDescriptor; 1],
}

impl GainNode {
    fn new(gain: f32) -> Self {
        GainNode {
            gain,
            in_port: [PortDescriptor::input(1, SampleFormat::F32)],
            out_port: [PortDescriptor::output(1, SampleFormat::F32)],
        }
    }
}

impl AudioNode for GainNode {
    fn inputs(&self) -> &[PortDescriptor] {
        &self.in_port
    }

    fn outputs(&self) -> &[PortDescriptor] {
        &self.out_port
    }

    fn process(
        &mut self,
        _: &mut ProcessContext,
        in_frames: &[AudioFrame],
        out_frames: &mut [AudioFrame],
    ) {
        let (Some(inp), Some(out)) = (in_frames.first(), out_frames.get_mut(0)) else {
            return;
        };
        let n = inp.samples.len().min(out.samples.len());
        for k in 0..n {
            out.samples[k] = (f32::from_bits(inp.samples[k]) * self.gain).to_bits();
        }
    }
}

/// One input, one output: copies every sample.
struct PassThroughNode {
    in_port: [PortDescriptor; 1],
    out_port: [PortDescriptor; 1],
}

impl PassThroughNode {
    fn new(channels: u16) -> Self {
        PassThroughNode {
            in_port: [PortDescriptor::input(channels, SampleFormat::F32)],
            out_port: [PortDescriptor::output(channels, SampleFormat::F32)],
        }
    }
}

impl AudioNode for PassThroughNode {
    fn inputs(&self) -> &[PortDescriptor] {
        &self.in_port
    }

    fn outputs(&self) -> &[PortDescriptor] {
        &self.out_port
    }

    fn process(
        &mut self,
        _: &mut ProcessContext,
        in_frames: &[AudioFrame],
        out_frames: &mut [AudioFrame],
    ) {
        let (Some(inp), Some(out)) = (in_frames.first(), out_frames.get_mut(0)) else {
            return;
        };
        let n = inp.samples.len().min(out.samples.len());
        out.samples[..n].copy_from_slice(&inp.samples[..n]);
    }
}

/// A frame of the given samples.
fn frame(channels: u16, sample_rate: u32, samples: &[f32]) -> AudioFrame {
    AudioFrame::from_planar(channels, sample_rate, samples.iter().map(|s| s.to_bits()).collect())
}

/// The samples of a frame.
fn floats(frame: &AudioFrame) -> Vec<f32> {
    frame.samples.iter().map(|&s| f32::from_bits(s)).collect()
}

fn mono_out() -> PortMeta {
    PortMeta { direction: PortDir::Output, channels: 1, sample_format: SampleFmt::F32 }
}

fn mono_in() -> PortMeta {
    PortMeta { direction: PortDir::Input, channels: 1, sample_format: SampleFmt::F32 }
}

fn edge(from: usize, to: usize) -> SnapshotEdge {
    SnapshotEdge { from: (from, 0), to: (to, 0) }
}

fn node(id: usize) -> NodeSnapshot {
    NodeSnapshot { id, inputs: vec![mono_in()], outputs: vec![mono_out()] }
}

#[test]
fn portmeta_from_descriptor_roundtrips_all_variants() {
    for dir in [PortDirection::Input, PortDirection::Output] {
        for (channels, fmt) in [
            (1_u16, SampleFormat::F32),
            (2_u16, SampleFormat::F64),
            (6_u16, SampleFormat::I16),
            (8_u16, SampleFormat::I32),
        ] {
            let d = PortDescriptor::new(dir, channels, fmt);
            let meta = PortMeta::from_descriptor(d);
            assert_eq!(meta.to_descriptor(), d, "roundtrip failed for {d:?}");
        }
    }
}

#[test]
fn port_meta_mirrors_every_field() {
    let d = PortDescriptor::new(PortDirection::Output, 6, SampleFormat::I16);
    assert_eq!(
        PortMeta::from_descriptor(d),
        PortMeta { direction: PortDir::Output, channels: 6, sample_format: SampleFmt::I16 }
    );
    let ports = [
        PortDescriptor::input(1, SampleFormat::F32),
        PortDescriptor::output(1, SampleFormat::F32),
    ];
    assert_eq!(PortMeta::from_descriptors(&ports), vec![mono_in(), mono_out()]);
}

#[test]
fn snapshot_edge_is_copy_and_eq() {
    let a = SnapshotEdge { from: (0, 0), to: (1, 0) };
    let b = a;
    assert_eq!(a, b);
    let c = SnapshotEdge { from: (0, 0), to: (2, 0) };
    assert_ne!(a, c);
}

#[test]
fn apply_add_node_inserts_then_replaces() {
    let mut snap = TopologySnapshot::new();
    let ns = NodeSnapshot { id: 3, inputs: vec![mono_in()], outputs: vec![mono_out()] };
    snap.apply(&Mutation::AddNode(ns.clone()));
    assert_eq!(snap.node(3), Some(&ns));

    let replaced = NodeSnapshot { id: 3, inputs: vec![], outputs: vec![mono_out()] };
    snap.apply(&Mutation::AddNode(replaced.clone()));
    assert_eq!(snap.nodes.len(), 1, "replace must not duplicate");
    assert_eq!(snap.node(3), Some(&replaced));
}

#[test]
fn apply_add_and_remove_link_by_positional_id() {
    let mut snap = TopologySnapshot::new();
    let e0 = SnapshotEdge { from: (0, 0), to: (1, 0) };
    let e1 = SnapshotEdge { from: (1, 0), to: (2, 0) };
    snap.apply(&Mutation::AddLink(e0));
    snap.apply(&Mutation::AddLink(e1));
    assert_eq!(snap.edges, vec![e0, e1]);

    snap.apply(&Mutation::RemoveLink(0));
    assert_eq!(snap.edges, vec![e1]);

    snap.apply(&Mutation::RemoveLink(99));
    assert_eq!(snap.edges, vec![e1]);
}

#[test]
fn apply_remove_node_drops_incident_edges() {
    let mut snap = TopologySnapshot::new();
    snap.nodes.push(NodeSnapshot { id: 0, inputs: vec![], outputs: vec![mono_out()] });
    snap.nodes.push(NodeSnapshot {
        id: 1,
        inputs: vec![mono_in()],
        outputs: vec![mono_out()],
    });
    snap.edges.push(SnapshotEdge { from: (0, 0), to: (1, 0) });
    snap.apply(&Mutation::RemoveNode(0));
    assert!(snap.node(0).is_none());
    assert!(snap.edges.is_empty());
}

#[test]
fn removing_a_node_keeps_the_others_in_order() {
    let mut snap = TopologySnapshot::new();
    for id in [4, 2, 9, 7] {
        snap.apply(&Mutation::AddNode(node(id)));
    }
    for e in [edge(4, 2), edge(4, 9), edge(2, 7), edge(9, 7)] {
        snap.apply(&Mutation::AddLink(e));
    }
    snap.apply(&Mutation::RemoveNode(2));
    assert_eq!(snap.nodes, vec![node(4), node(9), node(7)]);
    assert_eq!(snap.edges, vec![edge(4, 9), edge(9, 7)]);
    let same = snap.clone();
    snap.apply(&Mutation::RemoveNode(2));
    assert_eq!(snap, same);
}

#[test]
fn edits_that_undo_each_other() {
    let mut snap = TopologySnapshot::default();
    snap.apply(&Mutation::AddNode(node(0)));
    snap.apply(&Mutation::AddNode(node(1)));
    snap.apply(&Mutation::AddLink(edge(0, 1)));
    let before = snap.clone();

    snap.apply(&Mutation::AddLink(edge(1, 0)));
    assert_ne!(snap, before);
    snap.apply(&Mutation::RemoveLink(before.edges.len()));
    assert_eq!(snap, before);

    snap.apply(&Mutation::AddNode(node(5)));
    assert_ne!(snap, before);
    let once = snap.clone();
    snap.apply(&Mutation::AddNode(node(5)));
    assert_eq!(snap, once);
    snap.apply(&Mutation::RemoveNode(5));
    assert_eq!(snap, before);
}

#[test]
fn first_of_two_nodes_with_one_id_is_found() {
    let snap = TopologySnapshot {
        nodes: vec![
            NodeSnapshot { id: 1, inputs: vec![mono_in()], outputs: vec![] },
            NodeSnapshot { id: 1, inputs: vec![], outputs: vec![mono_out()] },
        ],
        edges: vec![],
    };
    assert_eq!(snap.node(1), Some(&snap.nodes[0]));
    assert_eq!(snap.node(2), None);
    let mut edited = snap.clone();
    edited.apply(&Mutation::AddNode(node(1)));
    assert_eq!(edited.nodes, vec![node(1), snap.nodes[1].clone()]);
    edited.apply(&Mutation::RemoveNode(1));
    assert!(edited.nodes.is_empty());
}

#[test]
fn graph_topology_snapshot_matches_structure() {
    let mut g = Graph::new();
    let src = g.add_node(Box::new(SourceNode::new(1)));
    let gain = g.add_node(Box::new(GainNode::new(0.5)));
    let _link = g.link((src, 0), (gain, 0)).unwrap();

    let snap = SnapshotSource::topology_snapshot(&g);
    assert_eq!(snap.nodes.len(), 2);
    assert_eq!(snap.edges.len(), 1);

    let src_ns = snap.node(src).unwrap();
    assert!(src_ns.inputs.is_empty());
    assert_eq!(src_ns.outputs.len(), 1);
    assert_eq!(src_ns.outputs[0], mono_out());

    let gain_ns = snap.node(gain).unwrap();
    assert_eq!(gain_ns.inputs.len(), 1);
    assert_eq!(gain_ns.inputs[0], mono_in());
    assert_eq!(gain_ns.outputs.len(), 1);
    assert_eq!(gain_ns.outputs[0], mono_out());

    assert_eq!(snap.edges[0], SnapshotEdge { from: (src, 0), to: (gain, 0) });
}

#[test]
fn from_snapshot_rebuilds_compilable_graph() {
    let mut orig = Graph::new();
    let src = orig.add_node(Box::new(SourceNode::new(1)));
    let gain = orig.add_node(Box::new(GainNode::new(0.25)));
    orig.link((src, 0), (gain, 0)).unwrap();
    let snap = SnapshotSource::topology_snapshot(&orig);

    let mut rebuilt = Graph::from_snapshot(&snap, &mut |id| {
        if id == src {
            Some(Box::new(SourceNode::new(1)) as Box<dyn AudioNode>)
        } else if id == gain {
            Some(Box::new(GainNode::new(0.25)) as Box<dyn AudioNode>)
        } else {
            None
        }
    })
    .expect("factory supplies all nodes");

    assert_eq!(rebuilt.node_count(), 2);
    assert_eq!(rebuilt.link_count(), 1);
    assert_eq!(rebuilt.topology_snapshot(), snap);
    rebuilt.compile(GraphConfig::new(8, 48_000, 1)).expect("rebuilt graph compiles");
}

#[test]
fn from_snapshot_errors_when_factory_returns_none() {
    let snap = TopologySnapshot {
        nodes: vec![NodeSnapshot { id: 7, inputs: vec![], outputs: vec![mono_out()] }],
        edges: vec![],
    };
    let result = Graph::from_snapshot(&snap, &mut |_| None);
    assert!(result.is_err());
    assert_eq!(result.err(), Some(GraphError::NodeNotFound(7)));
}

#[test]
fn ids_are_remapped_to_positions() {
    let snap = TopologySnapshot {
        nodes: vec![node(10), node(3), node(8)],
        edges: vec![edge(8, 10), edge(3, 8)],
    };
    let mut asked = Vec::new();
    let rebuilt = Graph::from_snapshot(&snap, &mut |id| {
        asked.push(id);
        Some(Box::new(GainNode::new(1.0)) as Box<dyn AudioNode>)
    })
    .unwrap();
    assert_eq!(asked, vec![10, 3, 8]);
    assert!(!rebuilt.is_compiled());
    assert_eq!(
        rebuilt.topology_snapshot(),
        TopologySnapshot {
            nodes: vec![node(0), node(1), node(2)],
            edges: vec![edge(2, 0), edge(1, 2)],
        }
    );
}

#[test]
fn edges_of_a_repeated_id_go_to_its_last_node() {
    let snap = TopologySnapshot {
        nodes: vec![node(5), node(5), node(1)],
        edges: vec![edge(5, 1)],
    };
    let nodes: Vec<Box<dyn AudioNode>> = vec![
        Box::new(GainNode::new(1.0)),
        Box::new(GainNode::new(1.0)),
        Box::new(GainNode::new(1.0)),
    ];
    let rebuilt = Graph::assemble(&snap, nodes).ok().unwrap();
    assert_eq!(rebuilt.topology_snapshot().edges, vec![edge(1, 2)]);
}

#[test]
fn edges_that_cannot_be_linked_are_reported() {
    let build = |edges: Vec<SnapshotEdge>| {
        let snap = TopologySnapshot { nodes: vec![node(4), node(6)], edges };
        let nodes: Vec<Box<dyn AudioNode>> =
            vec![Box::new(SourceNode::new(1)), Box::new(GainNode::new(1.0))];
        Graph::assemble(&snap, nodes).err()
    };
    assert_eq!(build(vec![edge(4, 6)]), None);
    assert_eq!(build(vec![edge(9, 8)]), Some(GraphError::NodeNotFound(9)));
    assert_eq!(build(vec![edge(4, 8)]), Some(GraphError::NodeNotFound(8)));
    assert_eq!(
        build(vec![edge(4, 6), edge(6, 4), edge(9, 9)]),
        Some(GraphError::PortNotFound { node: 0, port: 0 })
    );
}

#[test]
fn snapshot_extraction_is_safe_around_process_cycle() {
    let mut g = Graph::new();
    let a = g.add_node(Box::new(SourceNode::new(1)));
    let b = g.add_node(Box::new(PassThroughNode::new(1)));
    g.link((a, 0), (b, 0)).unwrap();
    g.compile(GraphConfig::new(8, 48_000, 1)).unwrap();

    let snap_before = g.topology_snapshot();
    assert_eq!(snap_before.nodes.len(), 2);
    assert_eq!(snap_before.edges.len(), 1);

    g.feed(a, 0, &frame(1, 48_000, &[0.5_f32; 8]));
    let mut ctx = ProcessContext::new(8, 0, 48_000);
    g.process_cycle(&mut ctx).unwrap();
    let out = g.read_output(b, 0).unwrap();
    assert!(floats(out).iter().all(|&s| (s - 0.5).abs() < 1e-6));

    let snap_after = g.topology_snapshot();
    assert_eq!(snap_before, snap_after);
}

/// Keeps a snapshot up to date from events alone.
struct Follower {
    snapshot: TopologySnapshot,
    compiled: bool,
}

impl TopologyObserver for Follower {
    fn on_topology_event(&mut self, event: &TopologyEvent) {
        match event {
            TopologyEvent::NodeAdded(ns) => self.snapshot.apply(&Mutation::AddNode(ns.clone())),
            TopologyEvent::NodeRemoved(id) => self.snapshot.apply(&Mutation::RemoveNode(*id)),
            TopologyEvent::LinkAdded(se) => self.snapshot.apply(&Mutation::AddLink(*se)),
            TopologyEvent::LinkRemoved(id) => self.snapshot.apply(&Mutation::RemoveLink(*id)),
            TopologyEvent::GraphCompiled => self.compiled = true,
            TopologyEvent::GraphReset => self.compiled = false,
        }
    }
}

#[test]
fn following_the_events_gives_the_snapshot() {
    let mut g = Graph::new();
    let rx = g.subscribe_topology();
    let src = g.add_node(Box::new(SourceNode::new(1)));
    let mid = g.add_node(Box::new(GainNode::new(1.0)));
    let end = g.add_node(Box::new(PassThroughNode::new(1)));
    g.link((src, 0), (mid, 0)).unwrap();
    g.link((mid, 0), (end, 0)).unwrap();
    g.compile(GraphConfig::new(2, 48_000, 1)).unwrap();

    let mut follower = Follower { snapshot: TopologySnapshot::new(), compiled: false };
    for event in rx.try_iter() {
        follower.on_topology_event(&event);
    }
    assert_eq!(follower.snapshot, g.topology_snapshot());
    assert!(follower.compiled);
}

#[test]
fn mutations_and_events_clone_to_equal_ones() {
    let mutations = [
        Mutation::AddNode(node(3)),
        Mutation::RemoveNode(7),
        Mutation::AddLink(edge(0, 1)),
        Mutation::RemoveLink(2),
    ];
    for m in &mutations {
        assert_eq!(&m.clone(), m);
    }
    let events = [
        TopologyEvent::NodeAdded(node(5)),
        TopologyEvent::NodeRemoved(9),
        TopologyEvent::LinkAdded(edge(1, 2)),
        TopologyEvent::LinkRemoved(4),
        TopologyEvent::GraphCompiled,
        TopologyEvent::GraphReset,
    ];
    for e in &events {
        assert_eq!(&e.clone(), e);
    }
}
