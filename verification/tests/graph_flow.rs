use audio_graph_bsd::{
    AudioFrame, AudioNode, Graph, GraphConfig, PortDescriptor, ProcessContext, SampleFormat,
};

/// Zero inputs, one output, and a `process` that does nothing: what is fed survives the cycle.
struct SourceNode {
    out_port: [PortDescriptor; 1],
}

impl SourceNode {
    fn new(channels: u16) -> Self {
        SourceNode { out_port: [PortDescriptor::output(channels, SampleFormat::F32)] }
    }
}

impl AudioNode for SourceNode {
    fn inputs(&self) -> &[PortDescriptor] {
        &[]
    }

    fn outputs(&self) -> &[PortDescriptor] {
        &self.out_port
    }

    fn process(&mut self, _: &mut ProcessContext, _: &[AudioFrame], _: &mut [AudioFrame]) {}
}

/// One input, one output: copies every sample.
struct PassThroughNode {
    in_port: [PortDescriptor; 1],
    out_port: [PortDescriptor; 1],
}

impl PassThroughNode {
    fn new(channels: u16) -> Self {
        PassThroughNode {
            in_port: [PortDescriptor::input(channels, SampleFormat::F32)],
            out_port: [PortDescriptor::output(channels, SampleFormat::F32)],
        }
    }
}

impl AudioNode for PassThroughNode {
    fn inputs(&self) -> &[PortDescriptor] {
        &self.in_port
    }

    fn outputs(&self) -> &[PortDescriptor] {
        &self.out_port
    }

    fn process(
        &mut self,
        _: &mut ProcessContext,
        in_frames: &[AudioFrame],
        out_frames: &mut [AudioFrame],
    ) {
        let (Some(inp), Some(out)) = (in_frames.first(), out_frames.get_mut(0)) else {
            return;
        };
        let n = inp.samples.len().min(out.samples.len());
        out.samples[..n].copy_from_slice(&inp.samples[..n]);
    }
}

/// Two inputs, one output: adds the inputs.
struct SumNode {
    in_ports: [PortDescriptor; 2],
    out_port: [PortDescriptor; 1],
}

impl SumNode {
    fn new(channels: u16) -> Self {
        SumNode {
            in_ports: [
                PortDescriptor::input(channels, SampleFormat::F32),
                PortDescriptor::input(channels, SampleFormat::F32),
            ],
            out_port: [PortDescriptor::output(channels, SampleFormat::F32)],
        }
    }
}

impl AudioNode for SumNode {
    fn inputs(&self) -> &[PortDescriptor] {
        &self.in_ports
    }

    fn outputs(&self) -> &[PortDescriptor] {
        &self.out_port
    }

    fn process(
        &mut self,
        _: &mut ProcessContext,
        in_frames: &[AudioFrame],
        out_frames: &mut [AudioFrame],
    ) {
        let Some(out) = out_frames.get_mut(0) else {
            return;
        };
        out.mute();
        for inp in in_frames {
            let n = inp.samples.len().min(out.samples.len());
            for k in 0..n {
                let sum = f32::from_bits(out.samples[k]) + f32::from_bits(inp.samples[k]);
                out.samples[k] = sum.to_bits();
            }
        }
    }
}

/// A frame of the given samples.
fn frame(channels: u16, sample_rate: u32, samples: &[f32]) -> AudioFrame {
    AudioFrame::from_planar(channels, sample_rate, samples.iter().map(|s| s.to_bits()).collect())
}

/// The samples of a frame.
fn floats(frame: &AudioFrame) -> Vec<f32> {
    frame.samples.iter().map(|&s| f32::from_bits(s)).collect()
}

fn approx_eq(a: f32, b: f32) -> bool {
    (a - b).abs() < 1e-6
}

fn slices_approx_eq(a: &[f32], b: &[f32]) -> bool {
    a.len() == b.len() && a.iter().zip(b).all(|(&x, &y)| approx_eq(x, y))
}

#[test]
fn source_to_sink_passes_samples_unchanged() {
    const N: usize = 16;
    let mut g = Graph::new();
    let src = g.add_node(Box::new(SourceNode::new(1)));
    let mid = g.add_node(Box::new(PassThroughNode::new(1)));
    let sink = g.add_node(Box::new(PassThroughNode::new(1)));
    g.link((src, 0), (mid, 0)).unwrap();
    g.link((mid, 0), (sink, 0)).unwrap();
    g.compile(GraphConfig::new(N, 48_000, 1)).unwrap();

    let ramp: Vec<f32> = (0..N).map(|k| k as f32 * 0.1).collect();
    g.feed(src, 0, &frame(1, 48_000, &ramp));

    let mut ctx = ProcessContext::new(N, 0, 48_000);
    g.process_cycle(&mut ctx).unwrap();

    let out = g.read_output(sink, 0).expect("sink output exists");
    assert!(slices_approx_eq(&floats(out), &ramp), "ramp not preserved; got {:?}", floats(out));
    assert_eq!(out.samples, frame(1, 48_000, &ramp).samples);
}

#[test]
fn ten_node_chain_thousand_cycles_no_panic() {
    const N: usize = 32;
    const CHAIN_LEN: usize = 10;
    const CYCLES: usize = 1000;

    let mut g = Graph::new();
    let src = g.add_node(Box::new(SourceNode::new(1)));
    let mut prev = src;
    let mut last = src;
    for _ in 0..(CHAIN_LEN - 1) {
        let node = g.add_node(Box::new(PassThroughNode::new(1)));
        g.link((prev, 0), (node, 0)).unwrap();
        prev = node;
        last = node;
    }
    g.compile(GraphConfig::new(N, 48_000, 1)).unwrap();

    let ramp: Vec<f32> = (0..N).map(|k| (k as f32) / (N as f32)).collect();
    g.feed(src, 0, &frame(1, 48_000, &ramp));

    let mut ctx = ProcessContext::new(N, 0, 48_000);
    for _ in 0..CYCLES {
        g.process_cycle(&mut ctx).unwrap();
    }

    let out = g.read_output(last, 0).expect("chain tail output exists");
    assert!(
        slices_approx_eq(&floats(out), &ramp),
        "ramp corrupted after {CYCLES} cycles across {CHAIN_LEN} nodes"
    );
}

#[test]
fn stereo_two_channel_signal_preserved() {
    const N: usize = 8;
    let mut g = Graph::new();
    let src = g.add_node(Box::new(SourceNode::new(2)));
    let mid = g.add_node(Box::new(PassThroughNode::new(2)));
    let sink = g.add_node(Box::new(PassThroughNode::new(2)));
    g.link((src, 0), (mid, 0)).unwrap();
    g.link((mid, 0), (sink, 0)).unwrap();
    g.compile(GraphConfig::new(N, 48_000, 2)).unwrap();

    let mut stereo = Vec::with_capacity(N * 2);
    for k in 0..N {
        stereo.push(k as f32 * 0.05);
    }
    for k in 0..N {
        stereo.push(1.0 - k as f32 * 0.05);
    }
    g.feed(src, 0, &frame(2, 48_000, &stereo));

    let mut ctx = ProcessContext::new(N, 0, 48_000);
    g.process_cycle(&mut ctx).unwrap();

    let out = g.read_output(sink, 0).expect("stereo sink output exists");
    assert_eq!(out.channels, 2);
    let samples = floats(out);
    assert!(slices_approx_eq(&samples[..N], &stereo[..N]), "stereo ch0 not preserved");
    assert!(slices_approx_eq(&samples[N..], &stereo[N..]), "stereo ch1 not preserved");
}

#[test]
fn diamond_fanout_fanin() {
    const N: usize = 8;
    let mut g = Graph::new();
    let src = g.add_node(Box::new(SourceNode::new(1)));
    let a = g.add_node(Box::new(PassThroughNode::new(1)));
    let b = g.add_node(Box::new(PassThroughNode::new(1)));
    let sum = g.add_node(Box::new(SumNode::new(1)));
    g.link((src, 0), (a, 0)).unwrap();
    g.link((src, 0), (b, 0)).unwrap();
    g.link((a, 0), (sum, 0)).unwrap();
    g.link((b, 0), (sum, 1)).unwrap();
    g.compile(GraphConfig::new(N, 48_000, 1)).unwrap();

    let ramp: Vec<f32> = (0..N).map(|k| k as f32 * 0.1).collect();
    g.feed(src, 0, &frame(1, 48_000, &ramp));

    let mut ctx = ProcessContext::new(N, 0, 48_000);
    g.process_cycle(&mut ctx).unwrap();

    let out = g.read_output(sum, 0).expect("sum output exists");
    let expected: Vec<f32> = ramp.iter().map(|&v| v * 2.0).collect();
    assert!(
        slices_approx_eq(&floats(out), &expected),
        "diamond sum mismatch; got {:?} expected {:?}",
        floats(out),
        expected
    );
}
