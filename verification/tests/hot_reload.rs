use audio_graph_bsd::{
    new_ring, AudioFrame, AudioNode, Graph, GraphConfig, GraphError, PortDescriptor,
    ProcessContext, RemoteNode, RingSink, RtHandle, SampleFormat, SnapshotSource, TransportHint,
};
use std::sync::atomic::{AtomicUsize, Ordering};
use std::sync::Arc;

/// Zero inputs, one output, and a `process` that does nothing: what is fed survives the cycle.
struct SourceNode {
    out_port: [PortDescriptor; 1],
}

impl SourceNode {
    fn new(channels: u16) -> Self {
        SourceNode { out_port: [PortDescriptor::output(channels, SampleFormat::F32)] }
    }
}

impl AudioNode for SourceNode {
    fn inputs(&self) -> &[PortDescriptor] {
        &[]
    }

    fn outputs(&self) -> &[PortDescriptor] {
        &self.out_port
    }

    fn process(&mut self, _: &mut ProcessContext, _: &[AudioFrame], _: &mut [AudioFrame]) {}
}

/// One input, one output: scales every sample by `gain`.
struct GainNode {
    gain: f32,
    in_port: [PortDescriptor; 1],
    out_port: [PortDescriptor; 1],
}

impl GainNode {
    fn new(gain: f32) -> Self {
        GainNode {
            gain,
            in_port: [PortDescriptor::input(1, SampleFormat::F32)],
            out_port: [PortDescriptor::output(1, SampleFormat::F32)],
        }
    }
}

impl AudioNode for GainNode {
    fn inputs(&self) -> &[PortDescriptor] {
        &self.in_port
    }

    fn outputs(&self) -> &[PortDescriptor] {
        &self.out_port
    }

    fn process(
        &mut self,
        _: &mut ProcessContext,
        in_frames: &[AudioFrame],
        out_frames: &mut [AudioFrame],
    ) {
        let (Some(inp), Some(out)) = (in_frames.first(), out_frames.get_mut(0)) else {
            return;
        };
        let n = inp.samples.len().min(out.samples.len());
        for k in 0..n {
            out.samples[k] = (f32::from_bits(inp.samples[k]) * self.gain).to_bits();
        }
    }
}

/// A frame of the given samples.
fn frame(channels: u16, sample_rate: u32, samples: &[f32]) -> AudioFrame {
    AudioFrame::from_planar(channels, sample_rate, samples.iter().map(|s| s.to_bits()).collect())
}

/// The samples of a frame.
fn floats(frame: &AudioFrame) -> Vec<f32> {
    frame.samples.iter().map(|&s| f32::from_bits(s)).collect()
}

/// A compiled graph that feeds all ones into a gain node; also returns the id of that node.
fn build_gain_graph(gain: f32) -> (Graph, usize) {
    let mut graph = Graph::new();
    let src = graph.add_node(Box::new(SourceNode::new(1)));
    let node = graph.add_node(Box::new(GainNode::new(gain)));
    graph.link((src, 0), (node, 0)).unwrap();
    graph.compile(GraphConfig::new(4, 48_000, 1)).unwrap();
    graph.feed(src, 0, &frame(1, 48_000, &[1.0; 4]));
    (graph, node)
}

#[test]
fn install_publishes_new_graph_for_next_cycle() {
    let (g1, gain1) = build_gain_graph(2.0);
    let handle = RtHandle::new(g1);

    let mut ctx = ProcessContext::new(4, 0, 48_000);
    handle.process_cycle(&mut ctx).unwrap();
    let g1 = handle.graph();
    let out1 = g1.read_output(gain1, 0).unwrap();
    assert!(
        floats(&out1).iter().all(|&s| (s - 2.0).abs() < 1e-6),
        "first graph (gain 2.0) should produce 2.0"
    );
    drop(g1);

    let (g2, gain2) = build_gain_graph(0.5);
    handle.install(g2);

    handle.process_cycle(&mut ctx).unwrap();
    let g2g = handle.graph();
    let out2 = g2g.read_output(gain2, 0).unwrap();
    assert!(
        floats(&out2).iter().all(|&s| (s - 0.5).abs() < 1e-6),
        "after install, the new graph (gain 0.5) should produce 0.5"
    );
}

#[test]
fn handle_of_a_graph_that_is_not_compiled_fails() {
    let handle = RtHandle::new(Graph::new());
    let mut ctx = ProcessContext::new(4, 3, 48_000);
    assert_eq!(handle.process_cycle(&mut ctx), Err(GraphError::NotCompiled));
    assert_eq!(ctx, ProcessContext::new(4, 3, 48_000));
    let (g, _) = build_gain_graph(1.0);
    handle.install(g);
    assert_eq!(handle.process_cycle(&mut ctx), Ok(()));
}

#[test]
fn replaced_graph_stays_alive_while_it_is_in_use() {
    let (g1, gain1) = build_gain_graph(2.0);
    let topology = g1.topology_snapshot();
    let handle = RtHandle::new(g1);
    let old = handle.graph();
    handle.install(Graph::new());
    assert_eq!(handle.graph().node_count(), 0);
    assert!(!handle.graph().is_compiled());

    assert_eq!(old.node_count(), 2);
    assert_eq!(old.link_count(), 1);
    assert!(old.is_compiled());
    assert_eq!(old.config(), GraphConfig::new(4, 48_000, 1));
    assert_eq!(old.topology_snapshot(), topology);
    let mut ctx = ProcessContext::new(4, 0, 48_000);
    old.process_cycle(&mut ctx).unwrap();
    assert_eq!(floats(&old.read_input(gain1, 0).unwrap()), vec![1.0; 4]);
    assert_eq!(floats(&old.read_output(gain1, 0).unwrap()), vec![2.0; 4]);
    assert!(old.read_output(gain1, 1).is_none());
    assert!(old.read_input(9, 0).is_none());
}

#[test]
fn handle_runs_many_cycles() {
    let (g, gain) = build_gain_graph(0.25);
    let handle = RtHandle::new(g);
    let mut ctx = ProcessContext::new(4, 0, 48_000);
    for _ in 0..1000 {
        handle.process_cycle(&mut ctx).unwrap();
    }
    assert_eq!(floats(&handle.graph().read_output(gain, 0).unwrap()), vec![0.25; 4]);
}

fn shared_between_threads<T: Send + Sync>(_: &T) {}

#[test]
fn handle_can_be_shared_between_threads() {
    let handle = RtHandle::new(Graph::new());
    shared_between_threads(&handle);
    shared_between_threads(&handle.graph());
}

#[test]
fn installed_graph_gives_the_hints_of_its_graph() {
    let declare = |node| {
        let host = "far".to_string();
        let transport_hint = TransportHint::Rtp;
        (node, 0, RemoteNode { node_id: 1, host, port: 5004, transport_hint })
    };
    let (g, gain) = build_gain_graph(1.0);
    let boundaries = [declare(gain), declare(9)];
    let expected = g.partition_hints(&boundaries);
    assert_eq!(expected[0].boundary_ports.len(), 1);
    let handle = RtHandle::new(g);
    assert_eq!(handle.graph().partition_hints(&boundaries), expected);
}

#[test]
fn frames_change_with_every_cycle_of_an_installed_graph() {
    let (g, gain) = build_gain_graph(0.5);
    let handle = RtHandle::new(g);
    let graph = handle.graph();
    assert_eq!(floats(&graph.read_output(gain, 0).unwrap()), vec![0.0; 4]);
    assert_eq!(floats(&graph.read_input(gain, 0).unwrap()), vec![0.0; 4]);
    let mut ctx = ProcessContext::new(4, 0, 48_000);
    handle.process_cycle(&mut ctx).unwrap();
    assert_eq!(floats(&graph.read_output(gain, 0).unwrap()), vec![0.5; 4]);
    assert_eq!(floats(&graph.read_input(gain, 0).unwrap()), vec![1.0; 4]);
}

/// Counts how often a node of its kind is dropped.
struct CountingNode {
    drops: Arc<AtomicUsize>,
}

impl Drop for CountingNode {
    fn drop(&mut self) {
        self.drops.fetch_add(1, Ordering::SeqCst);
    }
}

impl AudioNode for CountingNode {
    fn inputs(&self) -> &[PortDescriptor] {
        &[]
    }

    fn outputs(&self) -> &[PortDescriptor] {
        &[]
    }

    fn process(&mut self, _: &mut ProcessContext, _: &[AudioFrame], _: &mut [AudioFrame]) {}
}

/// A compiled graph of one node that counts its drops; also returns the counter.
fn build_counting_graph() -> (Graph, Arc<AtomicUsize>) {
    let drops = Arc::new(AtomicUsize::new(0));
    let mut graph = Graph::new();
    let _ = graph.add_node(Box::new(CountingNode { drops: drops.clone() }));
    graph.compile(GraphConfig::new(4, 48_000, 1)).unwrap();
    (graph, drops)
}

#[test]
fn replaced_graph_is_dropped_when_nobody_uses_it() {
    let (g1, drops1) = build_counting_graph();
    let (g2, drops2) = build_counting_graph();
    let handle = RtHandle::new(g1);
    let mut ctx = ProcessContext::new(4, 0, 48_000);
    handle.process_cycle(&mut ctx).unwrap();
    assert_eq!(drops1.load(Ordering::SeqCst), 0);
    handle.install(g2);
    assert_eq!(drops1.load(Ordering::SeqCst), 1);
    handle.process_cycle(&mut ctx).unwrap();
    assert_eq!(drops2.load(Ordering::SeqCst), 0);
}

#[test]
fn replaced_graph_is_dropped_by_its_last_reader() {
    let (g1, drops) = build_counting_graph();
    let handle = RtHandle::new(g1);
    let first = handle.graph();
    let second = handle.graph();
    handle.install(Graph::new());
    let mut ctx = ProcessContext::new(4, 0, 48_000);
    first.process_cycle(&mut ctx).unwrap();
    drop(first);
    assert_eq!(drops.load(Ordering::SeqCst), 0);
    assert_eq!(second.node_count(), 1);
    drop(second);
    assert_eq!(drops.load(Ordering::SeqCst), 1);
}

#[test]
fn installed_graph_is_dropped_with_its_handle() {
    let (g, drops) = build_counting_graph();
    let handle = RtHandle::new(g);
    let mut ctx = ProcessContext::new(4, 0, 48_000);
    handle.process_cycle(&mut ctx).unwrap();
    drop(handle);
    assert_eq!(drops.load(Ordering::SeqCst), 1);
}

#[test]
fn reader_keeps_the_graph_of_a_dropped_handle_alive() {
    let (g, drops) = build_counting_graph();
    let handle = RtHandle::new(g);
    let graph = handle.graph();
    drop(handle);
    assert_eq!(drops.load(Ordering::SeqCst), 0);
    assert!(graph.is_compiled());
    drop(graph);
    assert_eq!(drops.load(Ordering::SeqCst), 1);
}

#[test]
fn dropped_graph_lets_go_of_its_rings_and_subscribers() {
    let (producer, consumer) = new_ring(1);
    let mut g = Graph::new();
    let events = g.subscribe_topology();
    let _ = g.add_sink(Box::new(RingSink::new(producer, 1, 48_000, 4)));
    let handle = RtHandle::new(g);
    assert!(events.recv().is_ok());
    assert!(!consumer.is_abandoned());
    assert_eq!(events.try_recv(), Err(std::sync::mpsc::TryRecvError::Empty));
    handle.install(Graph::new());
    assert!(consumer.is_abandoned());
    assert!(events.recv().is_err());
}
