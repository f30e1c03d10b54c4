use audio_graph_bsd::{
    AudioFrame, AudioNode, Graph, GraphConfig, GraphError, PortDescriptor, PortDirection,
    ProcessContext, SampleFormat,
};

/// Zero inputs, one output, and a `process` that does nothing: what is fed survives the cycle.
struct SourceNode {
    out_port: [PortDescriptor; 1],
}

impl SourceNode {
    fn new(channels: u16) -> Self {
        SourceNode { out_port: [PortDescriptor::output(channels, SampleFormat::F32)] }
    }
}

impl AudioNode for SourceNode {
    fn inputs(&self) -> &[PortDescriptor] {
        &[]
    }

    fn outputs(&self) -> &[PortDescriptor] {
        &self.out_port
    }

    fn process(&mut self, _: &mut ProcessContext, _: &[AudioFrame], _: &mut [AudioFrame]) {}
}

/// One input, one output: scales every sample by `gain`.
struct GainNode {
    gain: f32,
    in_port: [PortDescriptor; 1],
    out_port: [PortDescriptor; 1],
}

impl GainNode {
    fn new(gain: f32) -> Self {
        GainNode {
            gain,
            in_port: [PortDescriptor::input(1, SampleFormat::F32)],
            out_port: [PortDescriptor::output(1, SampleFormat::F32)],
        }
    }
}

impl AudioNode for GainNode {
    fn inputs(&self) -> &[PortDescriptor] {
        &self.in_port
    }

    fn outputs(&self) -> &[PortDescriptor] {
        &self.out_port
    }

    fn process(
        &mut self,
        _: &mut ProcessContext,
        in_frames: &[AudioFrame],
        out_frames: &mut [AudioFrame],
    ) {
        let (Some(inp), Some(out)) = (in_frames.first(), out_frames.get_mut(0)) else {
            return;
        };
        let n = inp.samples.len().min(out.samples.len());
        for k in 0..n {
            out.samples[k] = (f32::from_bits(inp.samples[k]) * self.gain).to_bits();
        }
    }
}

/// A frame of the given samples.
fn frame(channels: u16, sample_rate: u32, samples: &[f32]) -> AudioFrame {
    AudioFrame::from_planar(channels, sample_rate, samples.iter().map(|s| s.to_bits()).collect())
}

/// The samples of a frame.
fn floats(frame: &AudioFrame) -> Vec<f32> {
    frame.samples.iter().map(|&s| f32::from_bits(s)).collect()
}

fn approx_eq(a: f32, b: f32) -> bool {
    (a - b).abs() < 1e-6
}

#[test]
fn empty_graph_compiles_and_runs() {
    let mut g = Graph::new();
    assert_eq!(g.node_count(), 0);
    assert_eq!(g.link_count(), 0);
    g.compile(GraphConfig::new(64, 48_000, 1)).unwrap();
    let mut ctx = ProcessContext::new(64, 0, 48_000);
    g.process_cycle(&mut ctx).unwrap();
}

#[test]
fn default_equals_new() {
    let a = Graph::new();
    let b = Graph::default();
    assert_eq!(a.node_count(), b.node_count());
    assert_eq!(a.link_count(), b.link_count());
}

#[test]
fn add_node_returns_sequential_ids() {
    let mut g = Graph::new();
    let a = g.add_node(Box::new(GainNode::new(1.0)));
    let b = g.add_node(Box::new(GainNode::new(1.0)));
    assert_eq!(a, 0);
    assert_eq!(b, 1);
    assert_eq!(g.node_count(), 2);
}

#[test]
fn link_valid_ports_succeeds() {
    let mut g = Graph::new();
    let s = g.add_node(Box::new(GainNode::new(1.0)));
    let d = g.add_node(Box::new(GainNode::new(1.0)));
    let link = g.link((s, 0), (d, 0)).unwrap();
    assert_eq!(link, 0);
    assert_eq!(g.link_count(), 1);
}

#[test]
fn link_unknown_node_errors() {
    let mut g = Graph::new();
    let s = g.add_node(Box::new(GainNode::new(1.0)));
    assert_eq!(g.link((s, 0), (99, 0)), Err(GraphError::NodeNotFound(99)));
    assert_eq!(g.link((99, 0), (s, 0)), Err(GraphError::NodeNotFound(99)));
}

#[test]
fn link_bad_port_errors() {
    let mut g = Graph::new();
    let s = g.add_node(Box::new(GainNode::new(1.0)));
    let d = g.add_node(Box::new(GainNode::new(1.0)));
    assert_eq!(
        g.link((s, 5), (d, 0)),
        Err(GraphError::PortNotFound { node: s, port: 5 })
    );
    assert_eq!(
        g.link((s, 0), (d, 9)),
        Err(GraphError::PortNotFound { node: d, port: 9 })
    );
}

#[test]
fn process_before_compile_errors() {
    let mut g = Graph::new();
    let mut ctx = ProcessContext::new(64, 0, 48_000);
    assert_eq!(g.process_cycle(&mut ctx), Err(GraphError::NotCompiled));
}

#[test]
fn compile_twice_errors() {
    let mut g = Graph::new();
    g.compile(GraphConfig::new(64, 48_000, 1)).unwrap();
    assert_eq!(
        g.compile(GraphConfig::new(64, 48_000, 1)),
        Err(GraphError::AlreadyCompiled)
    );
}

#[test]
fn cycle_is_rejected_at_compile() {
    let mut g = Graph::new();
    let a = g.add_node(Box::new(GainNode::new(1.0)));
    let b = g.add_node(Box::new(GainNode::new(1.0)));
    g.link((a, 0), (b, 0)).unwrap();
    g.link((b, 0), (a, 0)).unwrap();
    let err = g.compile(GraphConfig::new(64, 48_000, 1)).unwrap_err();
    assert!(matches!(err, GraphError::CycleDetected { .. }));
}

#[test]
fn end_to_end_gain_chain() {
    let mut g = Graph::new();
    let src = g.add_node(Box::new(SourceNode::new(1)));
    let mid = g.add_node(Box::new(GainNode::new(0.5)));
    g.link((src, 0), (mid, 0)).unwrap();
    g.compile(GraphConfig::new(8, 48_000, 1)).unwrap();

    g.feed(src, 0, &frame(1, 48_000, &[1.0; 8]));
    let mut ctx = ProcessContext::new(8, 0, 48_000);
    g.process_cycle(&mut ctx).unwrap();

    let mid_in = g.read_input(mid, 0).unwrap();
    assert!(floats(mid_in).iter().all(|&s| approx_eq(s, 1.0)));
    let mid_out = g.read_output(mid, 0).unwrap();
    assert!(floats(mid_out).iter().all(|&s| approx_eq(s, 0.5)));
}

#[test]
fn three_stage_chain_composes_gains() {
    let mut g = Graph::new();
    let src = g.add_node(Box::new(SourceNode::new(1)));
    let a = g.add_node(Box::new(GainNode::new(2.0)));
    let b = g.add_node(Box::new(GainNode::new(3.0)));
    let c = g.add_node(Box::new(GainNode::new(0.5)));
    g.link((src, 0), (a, 0)).unwrap();
    g.link((a, 0), (b, 0)).unwrap();
    g.link((b, 0), (c, 0)).unwrap();
    g.compile(GraphConfig::new(4, 48_000, 1)).unwrap();

    g.feed(src, 0, &frame(1, 48_000, &[1.0; 4]));
    let mut ctx = ProcessContext::new(4, 0, 48_000);
    g.process_cycle(&mut ctx).unwrap();

    let out = g.read_output(c, 0).unwrap();
    assert!(floats(out).iter().all(|&s| approx_eq(s, 3.0)));
}

#[test]
fn unconnected_input_is_silenced() {
    let mut g = Graph::new();
    let n = g.add_node(Box::new(GainNode::new(1.0)));
    g.compile(GraphConfig::new(4, 48_000, 1)).unwrap();
    let mut ctx = ProcessContext::new(4, 0, 48_000);
    g.process_cycle(&mut ctx).unwrap();
    let inp = g.read_input(n, 0).unwrap();
    assert_eq!(inp.samples.len(), 4);
    assert!(floats(inp).iter().all(|&s| approx_eq(s, 0.0)));
}

#[test]
fn read_out_of_range_returns_none() {
    let mut g = Graph::new();
    let n = g.add_node(Box::new(GainNode::new(1.0)));
    g.compile(GraphConfig::new(4, 48_000, 1)).unwrap();
    assert!(g.read_output(99, 0).is_none());
    assert!(g.read_output(n, 99).is_none());
    assert!(g.read_input(99, 0).is_none());
    assert!(g.read_input(n, 99).is_none());
}

#[test]
fn feed_out_of_range_is_noop() {
    let mut g = Graph::new();
    let n = g.add_node(Box::new(GainNode::new(1.0)));
    g.compile(GraphConfig::new(4, 48_000, 1)).unwrap();
    let before = g.read_output(n, 0).unwrap().clone();
    g.feed(99, 0, &AudioFrame::silence(1, 4, 48_000));
    g.feed(0, 99, &AudioFrame::silence(1, 4, 48_000));
    assert_eq!(g.read_output(n, 0), Some(&before));
}

#[test]
fn graphconfig_new_and_equality() {
    let a = GraphConfig::new(256, 48_000, 2);
    assert_eq!(a, GraphConfig::new(256, 48_000, 2));
    assert_ne!(a, GraphConfig::new(128, 48_000, 2));
    assert_eq!(a.num_frames, 256);
    assert_eq!(a.sample_rate, 48_000);
    assert_eq!(a.channels, 2);
}

#[test]
fn is_compiled_and_config_reflect_state() {
    let mut g = Graph::new();
    assert!(!g.is_compiled());
    g.compile(GraphConfig::new(4, 44_100, 2)).unwrap();
    assert!(g.is_compiled());
    assert_eq!(g.config(), GraphConfig::new(4, 44_100, 2));
}

#[test]
fn diamond_topology_processes_in_dependency_order() {
    // src -> {a, b}; a -> sink. The output of b is not connected.
    let mut g = Graph::new();
    let src = g.add_node(Box::new(SourceNode::new(1)));
    let a = g.add_node(Box::new(GainNode::new(2.0)));
    let b = g.add_node(Box::new(GainNode::new(3.0)));
    let sink = g.add_node(Box::new(GainNode::new(1.0)));
    g.link((src, 0), (a, 0)).unwrap();
    g.link((src, 0), (b, 0)).unwrap();
    g.link((a, 0), (sink, 0)).unwrap();
    g.compile(GraphConfig::new(4, 48_000, 1)).unwrap();

    g.feed(src, 0, &frame(1, 48_000, &[1.0; 4]));
    let mut ctx = ProcessContext::new(4, 0, 48_000);
    g.process_cycle(&mut ctx).unwrap();
    let out = g.read_output(sink, 0).unwrap();
    assert!(floats(out).iter().all(|&s| approx_eq(s, 2.0)));
    let unconnected = g.read_output(b, 0).unwrap();
    assert!(floats(unconnected).iter().all(|&s| approx_eq(s, 3.0)));
}

/// A node whose ports are whatever a test needs; it processes nothing.
struct AnyPorts {
    inputs: Vec<PortDescriptor>,
    outputs: Vec<PortDescriptor>,
}

impl AudioNode for AnyPorts {
    fn inputs(&self) -> &[PortDescriptor] {
        &self.inputs
    }

    fn outputs(&self) -> &[PortDescriptor] {
        &self.outputs
    }

    fn process(&mut self, _: &mut ProcessContext, _: &[AudioFrame], _: &mut [AudioFrame]) {}
}

#[test]
fn link_from_input_port_is_direction_mismatch() {
    let mut g = Graph::new();
    let odd = g.add_node(Box::new(AnyPorts {
        inputs: vec![PortDescriptor::output(1, SampleFormat::F32)],
        outputs: vec![PortDescriptor::new(PortDirection::Input, 1, SampleFormat::F32)],
    }));
    let ok = g.add_node(Box::new(GainNode::new(1.0)));
    assert_eq!(
        g.link((odd, 0), (ok, 0)),
        Err(GraphError::PortDirectionMismatch { from: (odd, 0), to: (ok, 0) })
    );
    assert_eq!(
        g.link((ok, 0), (odd, 0)),
        Err(GraphError::PortDirectionMismatch { from: (ok, 0), to: (odd, 0) })
    );
    assert_eq!(g.link_count(), 0);
}

#[test]
fn link_of_differing_ports_is_incompatible() {
    let mut g = Graph::new();
    let mono = g.add_node(Box::new(GainNode::new(1.0)));
    let stereo = g.add_node(Box::new(SourceNode::new(2)));
    let integer = g.add_node(Box::new(AnyPorts {
        inputs: vec![],
        outputs: vec![PortDescriptor::output(1, SampleFormat::I16)],
    }));
    assert_eq!(
        g.link((stereo, 0), (mono, 0)),
        Err(GraphError::PortIncompatible { from: (stereo, 0), to: (mono, 0) })
    );
    assert_eq!(
        g.link((integer, 0), (mono, 0)),
        Err(GraphError::PortIncompatible { from: (integer, 0), to: (mono, 0) })
    );
}

#[test]
fn missing_node_is_reported_before_missing_port() {
    let mut g = Graph::new();
    let a = g.add_node(Box::new(GainNode::new(1.0)));
    assert_eq!(g.link((a, 9), (7, 9)), Err(GraphError::NodeNotFound(7)));
    assert_eq!(g.link((8, 9), (7, 9)), Err(GraphError::NodeNotFound(8)));
    assert_eq!(
        g.link((a, 9), (a, 8)),
        Err(GraphError::PortNotFound { node: a, port: 9 })
    );
}

#[test]
fn cycle_error_names_the_nodes_on_and_behind_the_cycle() {
    let mut g = Graph::new();
    let src = g.add_node(Box::new(SourceNode::new(1)));
    let a = g.add_node(Box::new(GainNode::new(1.0)));
    let b = g.add_node(Box::new(GainNode::new(1.0)));
    let behind = g.add_node(Box::new(GainNode::new(1.0)));
    g.link((src, 0), (a, 0)).unwrap();
    g.link((b, 0), (a, 0)).unwrap();
    g.link((a, 0), (b, 0)).unwrap();
    g.link((b, 0), (behind, 0)).unwrap();
    assert_eq!(
        g.compile(GraphConfig::new(4, 48_000, 1)),
        Err(GraphError::CycleDetected { nodes: vec![a, b, behind] })
    );
    assert!(!g.is_compiled());
    assert_eq!(g.config(), GraphConfig::new(0, 0, 0));
}

#[test]
fn compile_allocates_silence_of_the_configured_size() {
    let mut g = Graph::new();
    let n = g.add_node(Box::new(GainNode::new(1.0)));
    assert!(g.read_output(n, 0).is_none());
    g.compile(GraphConfig::new(3, 44_100, 2)).unwrap();
    assert_eq!(g.read_output(n, 0), Some(&AudioFrame::silence(2, 3, 44_100)));
    assert_eq!(g.read_input(n, 0), Some(&AudioFrame::silence(2, 3, 44_100)));
}

#[test]
fn first_of_two_links_to_an_input_feeds_it() {
    let mut g = Graph::new();
    let first = g.add_node(Box::new(SourceNode::new(1)));
    let second = g.add_node(Box::new(SourceNode::new(1)));
    let dst = g.add_node(Box::new(GainNode::new(1.0)));
    assert_eq!(g.link((second, 0), (dst, 0)), Ok(0));
    assert_eq!(g.link((first, 0), (dst, 0)), Ok(1));
    g.compile(GraphConfig::new(2, 48_000, 1)).unwrap();
    g.feed(first, 0, &frame(1, 48_000, &[0.25; 2]));
    g.feed(second, 0, &frame(1, 48_000, &[0.75; 2]));
    let mut ctx = ProcessContext::new(2, 0, 48_000);
    g.process_cycle(&mut ctx).unwrap();
    assert_eq!(floats(g.read_input(dst, 0).unwrap()), vec![0.75; 2]);
}

#[test]
fn feed_copies_what_fits_and_keeps_the_size() {
    let mut g = Graph::new();
    let src = g.add_node(Box::new(SourceNode::new(1)));
    g.compile(GraphConfig::new(3, 48_000, 1)).unwrap();
    g.feed(src, 0, &frame(2, 44_100, &[0.1, 0.2, 0.3, 0.4, 0.5]));
    assert_eq!(g.read_output(src, 0), Some(&frame(2, 44_100, &[0.1, 0.2, 0.3])));
    g.feed(src, 0, &frame(1, 48_000, &[0.9]));
    assert_eq!(g.read_output(src, 0), Some(&frame(1, 48_000, &[0.9, 0.2, 0.3])));
}

#[test]
fn nodes_and_links_added_after_compile_wait_for_the_next_graph() {
    let mut g = Graph::new();
    let src = g.add_node(Box::new(SourceNode::new(1)));
    g.compile(GraphConfig::new(2, 48_000, 1)).unwrap();
    let late = g.add_node(Box::new(GainNode::new(1.0)));
    assert_eq!(g.link((src, 0), (late, 0)), Ok(0));
    g.feed(src, 0, &frame(1, 48_000, &[0.5; 2]));
    let mut ctx = ProcessContext::new(2, 0, 48_000);
    g.process_cycle(&mut ctx).unwrap();
    assert!(g.read_input(late, 0).is_none());
    assert!(g.read_output(late, 0).is_none());
    assert_eq!(floats(g.read_output(src, 0).unwrap()), vec![0.5; 2]);
}

#[test]
fn failed_cycle_leaves_the_context_alone() {
    let mut g = Graph::new();
    let mut ctx = ProcessContext::new(64, 7, 48_000);
    assert_eq!(g.process_cycle(&mut ctx), Err(GraphError::NotCompiled));
    assert_eq!(ctx, ProcessContext::new(64, 7, 48_000));
    assert!(!ctx.xrun_detected);
}

/// Adds its input length to the sample position, to show in which order nodes see the context.
struct Counter {
    in_port: [PortDescriptor; 1],
    out_port: [PortDescriptor; 1],
}

impl AudioNode for Counter {
    fn inputs(&self) -> &[PortDescriptor] {
        &self.in_port
    }

    fn outputs(&self) -> &[PortDescriptor] {
        &self.out_port
    }

    fn process(&mut self, ctx: &mut ProcessContext, _: &[AudioFrame], out: &mut [AudioFrame]) {
        out[0].samples[0] = ctx.sample_position as u32;
        ctx.sample_position += 1;
    }
}

#[test]
fn nodes_run_in_dependency_order_and_share_the_context() {
    let counter = || {
        Box::new(Counter {
            in_port: [PortDescriptor::input(1, SampleFormat::F32)],
            out_port: [PortDescriptor::output(1, SampleFormat::F32)],
        })
    };
    let mut g = Graph::new();
    let last = g.add_node(counter());
    let first = g.add_node(counter());
    let middle = g.add_node(counter());
    g.link((first, 0), (middle, 0)).unwrap();
    g.link((middle, 0), (last, 0)).unwrap();
    g.compile(GraphConfig::new(1, 48_000, 1)).unwrap();
    let mut ctx = ProcessContext::new(1, 10, 48_000);
    g.process_cycle(&mut ctx).unwrap();
    assert_eq!(ctx.sample_position, 13);
    assert_eq!(g.read_output(first, 0).unwrap().samples, vec![10]);
    assert_eq!(g.read_output(middle, 0).unwrap().samples, vec![11]);
    assert_eq!(g.read_output(last, 0).unwrap().samples, vec![12]);
    assert_eq!(g.read_input(last, 0).unwrap().samples, vec![11]);
}
