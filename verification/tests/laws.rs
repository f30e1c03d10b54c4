use audio_graph_bsd::{
    AudioFrame, AudioNode, Graph, GraphConfig, Mutation, NodeSnapshot, PortDescriptor,
    ProcessContext, RingSink, SampleFormat, SnapshotEdge, SnapshotSource, TopologySnapshot,
};

/// Zero inputs, one output, and a `process` that does nothing: what is fed survives the cycle.
struct SourceNode {
    out_port: [PortDescriptor; 1],
}

impl SourceNode {
    fn new(channels: u16) -> Self {
        SourceNode { out_port: [PortDescriptor::output(channels, SampleFormat::F32)] }
    }
}

impl AudioNode for SourceNode {
    fn inputs(&self) -> &[PortDescriptor] {
        &[]
    }

    fn outputs(&self) -> &[PortDescriptor] {
        &self.out_port
    }

    fn process(&mut self, _: &mut ProcessContext, _: &[AudioFrame], _: &mut [AudioFrame]) {}
}

/// One input, one output: copies every sample.
struct PassThroughNode {
    in_port: [PortDescriptor; 1],
    out_port: [PortDescriptor; 1],
}

impl PassThroughNode {
    fn new(channels: u16) -> Self {
        PassThroughNode {
            in_port: [PortDescriptor::input(channels, SampleFormat::F32)],
            out_port: [PortDescriptor::output(channels, SampleFormat::F32)],
        }
    }
}

impl AudioNode for PassThroughNode {
    fn inputs(&self) -> &[PortDescriptor] {
        &self.in_port
    }

    fn outputs(&self) -> &[PortDescriptor] {
        &self.out_port
    }

    fn process(
        &mut self,
        _: &mut ProcessContext,
        in_frames: &[AudioFrame],
        out_frames: &mut [AudioFrame],
    ) {
        let (Some(inp), Some(out)) = (in_frames.first(), out_frames.get_mut(0)) else {
            return;
        };
        let n = inp.samples.len().min(out.samples.len());
        out.samples[..n].copy_from_slice(&inp.samples[..n]);
    }
}

/// A source and `n` pass-through nodes, linked as `links` says; the source is node 0.
fn build(n: usize, links: &[(usize, usize)]) -> Graph {
    let mut g = Graph::new();
    let _ = g.add_node(Box::new(SourceNode::new(1)));
    for _ in 0..n {
        let _ = g.add_node(Box::new(PassThroughNode::new(1)));
    }
    for &(from, to) in links {
        g.link((from, 0), (to, 0)).unwrap();
    }
    g
}

const TREE: [(usize, usize); 5] = [(3, 1), (0, 3), (3, 4), (1, 2), (4, 5)];

#[test]
fn every_input_mirrors_what_feeds_it_after_one_cycle() {
    let mut g = build(6, &TREE);
    g.compile(GraphConfig::new(3, 48_000, 1)).unwrap();
    g.feed(0, 0, &AudioFrame::from_planar(1, 48_000, vec![11, 22, 33]));
    let mut ctx = ProcessContext::new(3, 0, 48_000);
    g.process_cycle(&mut ctx).unwrap();
    for (from, to) in TREE {
        assert_eq!(g.read_input(to, 0), g.read_output(from, 0));
        assert_eq!(g.read_output(to, 0).unwrap().samples, vec![11, 22, 33]);
    }
    assert_eq!(g.read_input(6, 0), Some(&AudioFrame::silence(1, 3, 48_000)));
}

#[test]
fn input_that_nothing_feeds_is_silenced_again_in_every_cycle() {
    let mut g = build(1, &[]);
    g.compile(GraphConfig::new(2, 48_000, 1)).unwrap();
    g.feed(1, 0, &AudioFrame::from_planar(1, 48_000, vec![7, 7]));
    let mut ctx = ProcessContext::new(2, 0, 48_000);
    for _ in 0..3 {
        g.process_cycle(&mut ctx).unwrap();
        assert_eq!(g.read_input(1, 0), Some(&AudioFrame::silence(1, 2, 48_000)));
        assert_eq!(g.read_output(1, 0).unwrap().samples, vec![0, 0]);
    }
}

#[test]
fn same_graph_and_same_input_give_the_same_output() {
    let run = || {
        let mut g = build(6, &TREE);
        g.compile(GraphConfig::new(2, 48_000, 1)).unwrap();
        g.feed(0, 0, &AudioFrame::from_planar(1, 48_000, vec![5, 6]));
        let mut ctx = ProcessContext::new(2, 0, 48_000);
        g.process_cycle(&mut ctx).unwrap();
        (0..7).map(|n| g.read_output(n, 0).cloned()).collect::<Vec<_>>()
    };
    assert_eq!(run(), run());
}

#[test]
fn calls_keep_nodes_links_and_compilation() {
    let (producer, _consumer) = rtrb::RingBuffer::<AudioFrame>::new(1);
    let mut g = build(2, &[(0, 1)]);
    let sink = g.add_sink(Box::new(RingSink::new(producer, 1, 48_000, 2)));
    let before = g.topology_snapshot();
    g.compile(GraphConfig::new(2, 48_000, 1)).unwrap();
    let _rx = g.subscribe_topology();
    let mut ctx = ProcessContext::new(2, 0, 48_000);
    g.process_cycle(&mut ctx).unwrap();
    g.feed(0, 0, &AudioFrame::silence(1, 2, 48_000));
    let _ = g.flush_sinks();
    let _ = g.flush_sink(sink);
    assert_eq!(g.topology_snapshot(), before);
    let added = g.add_node(Box::new(PassThroughNode::new(1)));
    assert_eq!(g.link((1, 0), (added, 0)), Ok(1));
    assert!(g.is_compiled());
    assert_eq!(g.config(), GraphConfig::new(2, 48_000, 1));
    let after = g.topology_snapshot();
    assert_eq!(after.nodes[..before.nodes.len()], before.nodes[..]);
    assert_eq!(after.edges[..before.edges.len()], before.edges[..]);
}

fn unique_ids(s: &TopologySnapshot) -> bool {
    (0..s.nodes.len()).all(|i| (0..i).all(|j| s.nodes[i].id != s.nodes[j].id))
}

fn no_dangling(s: &TopologySnapshot) -> bool {
    s.edges.iter().all(|e| s.node(e.from.0).is_some() && s.node(e.to.0).is_some())
}

#[test]
fn edits_keep_ids_unique_and_edges_joined() {
    let node = |id| NodeSnapshot { id, inputs: vec![], outputs: vec![] };
    let edge = |from, to| SnapshotEdge { from: (from, 0), to: (to, 0) };
    let mut s = build(3, &[(0, 1), (1, 2)]).topology_snapshot();
    assert!(unique_ids(&s) && no_dangling(&s));
    for m in [
        Mutation::AddNode(node(9)),
        Mutation::AddLink(edge(9, 1)),
        Mutation::AddNode(node(1)),
        Mutation::RemoveNode(1),
        Mutation::RemoveNode(42),
        Mutation::AddLink(edge(0, 9)),
        Mutation::RemoveLink(0),
        Mutation::RemoveLink(7),
    ] {
        s.apply(&m);
        assert!(unique_ids(&s) && no_dangling(&s), "after {m:?}");
    }
    assert_eq!(s.nodes.iter().map(|n| n.id).collect::<Vec<_>>(), vec![0, 2, 3, 9]);
    assert!(s.edges.is_empty());
}
