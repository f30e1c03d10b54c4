use audio_graph_bsd::{
    AudioFrame, AudioNode, FlushError, Flushable, Graph, GraphConfig, PortDescriptor,
    ProcessContext, RingSink, RingSource, SampleFormat,
};

/// Zero inputs, one output, and a `process` that does nothing: what is fed survives the cycle.
struct SourceNode {
    out_port: [PortDescriptor; 1],
}

impl SourceNode {
    fn new(channels: u16) -> Self {
        SourceNode { out_port: [PortDescriptor::output(channels, SampleFormat::F32)] }
    }
}

impl AudioNode for SourceNode {
    fn inputs(&self) -> &[PortDescriptor] {
        &[]
    }

    fn outputs(&self) -> &[PortDescriptor] {
        &self.out_port
    }

    fn process(&mut self, _: &mut ProcessContext, _: &[AudioFrame], _: &mut [AudioFrame]) {}
}

/// One input, one output: scales every sample by `gain`.
struct GainNode {
    gain: f32,
    in_port: [PortDescriptor; 1],
    out_port: [PortDescriptor; 1],
}

impl GainNode {
    fn new(gain: f32) -> Self {
        GainNode {
            gain,
            in_port: [PortDescriptor::input(1, SampleFormat::F32)],
            out_port: [PortDescriptor::output(1, SampleFormat::F32)],
        }
    }
}

impl AudioNode for GainNode {
    fn inputs(&self) -> &[PortDescriptor] {
        &self.in_port
    }

    fn outputs(&self) -> &[PortDescriptor] {
        &self.out_port
    }

    fn process(
        &mut self,
        _: &mut ProcessContext,
        in_frames: &[AudioFrame],
        out_frames: &mut [AudioFrame],
    ) {
        let (Some(inp), Some(out)) = (in_frames.first(), out_frames.get_mut(0)) else {
            return;
        };
        let n = inp.samples.len().min(out.samples.len());
        for k in 0..n {
            out.samples[k] = (f32::from_bits(inp.samples[k]) * self.gain).to_bits();
        }
    }
}

/// A frame of the given samples.
fn frame(channels: u16, sample_rate: u32, samples: &[f32]) -> AudioFrame {
    AudioFrame::from_planar(channels, sample_rate, samples.iter().map(|s| s.to_bits()).collect())
}

/// The samples of a frame.
fn floats(frame: &AudioFrame) -> Vec<f32> {
    frame.samples.iter().map(|&s| f32::from_bits(s)).collect()
}

#[test]
fn flush_sinks_drains_stash_to_consumer() {
    const N: usize = 4;
    let (producer, mut consumer) = rtrb::RingBuffer::<AudioFrame>::new(8);

    let mut g = Graph::new();
    let src = g.add_node(Box::new(SourceNode::new(1)));
    let sink = g.add_sink(Box::new(RingSink::new(producer, 1, 48_000, N)));
    g.link((src, 0), (sink, 0)).unwrap();
    g.compile(GraphConfig::new(N, 48_000, 1)).unwrap();

    g.feed(src, 0, &frame(1, 48_000, &[0.5; N]));
    let mut ctx = ProcessContext::new(N, 0, 48_000);
    g.process_cycle(&mut ctx).unwrap();

    assert!(consumer.pop().is_err(), "consumer must be empty before flush");

    let (count, err) = g.flush_sinks();
    assert_eq!(count, 1, "exactly one sink should be flushed");
    assert!(err.is_none(), "flush should succeed on an empty ring");

    let shipped = consumer.pop().expect("frame should be available after flush");
    assert!(
        floats(&shipped).iter().all(|&s| (s - 0.5).abs() < 1e-6),
        "flushed frame should carry the 0.5 signal"
    );
}

#[test]
fn flush_sinks_reports_ring_full_without_panic() {
    const N: usize = 2;
    let (producer, _consumer) = rtrb::RingBuffer::<AudioFrame>::new(1);

    let mut g = Graph::new();
    let src = g.add_node(Box::new(SourceNode::new(1)));
    let sink = g.add_sink(Box::new(RingSink::new(producer, 1, 48_000, N)));
    g.link((src, 0), (sink, 0)).unwrap();
    g.compile(GraphConfig::new(N, 48_000, 1)).unwrap();

    g.feed(src, 0, &frame(1, 48_000, &[0.25; N]));
    let mut ctx = ProcessContext::new(N, 0, 48_000);
    g.process_cycle(&mut ctx).unwrap();

    let (count1, err1) = g.flush_sinks();
    assert_eq!(count1, 1);
    assert!(err1.is_none());

    let (count2, err2) = g.flush_sinks();
    assert_eq!(count2, 1);
    assert!(matches!(err2, Some(FlushError::RingFull(_))));
}

#[test]
fn flush_sink_on_plain_node_is_not_flushable() {
    let mut g = Graph::new();
    let n = g.add_node(Box::new(SourceNode::new(1)));
    g.compile(GraphConfig::new(4, 48_000, 1)).unwrap();
    assert_eq!(g.flush_sink(n), Err(FlushError::NotFlushable(n)));
}

#[test]
fn flush_sink_on_missing_node_is_not_found() {
    let mut g = Graph::new();
    g.compile(GraphConfig::new(4, 48_000, 1)).unwrap();
    assert_eq!(g.flush_sink(99), Err(FlushError::NodeNotFound(99)));
}

#[test]
fn flush_sink_drains_specific_sink_by_id() {
    const N: usize = 4;
    let (producer, mut consumer) = rtrb::RingBuffer::<AudioFrame>::new(8);
    let mut g = Graph::new();
    let src = g.add_node(Box::new(SourceNode::new(1)));
    let sink = g.add_sink(Box::new(RingSink::new(producer, 1, 48_000, N)));
    g.link((src, 0), (sink, 0)).unwrap();
    g.compile(GraphConfig::new(N, 48_000, 1)).unwrap();
    g.feed(src, 0, &frame(1, 48_000, &[0.75; N]));
    let mut ctx = ProcessContext::new(N, 0, 48_000);
    g.process_cycle(&mut ctx).unwrap();

    g.flush_sink(sink).unwrap();
    let shipped = consumer.pop().expect("frame after targeted flush");
    assert!(floats(&shipped).iter().all(|&s| (s - 0.75).abs() < 1e-6));
}

#[test]
fn flush_sinks_between_cycles_does_not_corrupt_signal() {
    const N: usize = 16;
    let (mut prod_in, cons_in) = rtrb::RingBuffer::<AudioFrame>::new(8);
    let (prod_out, mut cons_out) = rtrb::RingBuffer::<AudioFrame>::new(8);

    let mut g = Graph::new();
    let rsrc = g.add_node(Box::new(RingSource::new(cons_in, 1, 48_000, N)));
    let gain = g.add_node(Box::new(GainNode::new(2.0)));
    let rsink = g.add_sink(Box::new(RingSink::new(prod_out, 1, 48_000, N)));
    g.link((rsrc, 0), (gain, 0)).unwrap();
    g.link((gain, 0), (rsink, 0)).unwrap();
    g.compile(GraphConfig::new(N, 48_000, 1)).unwrap();

    let _ = prod_in.push(frame(1, 48_000, &[0.5; N]));
    let mut ctx = ProcessContext::new(N, 0, 48_000);

    g.process_cycle(&mut ctx).unwrap();
    let (count, err) = g.flush_sinks();
    assert_eq!(count, 1);
    assert!(err.is_none());

    let shipped = cons_out.pop().expect("flushed frame");
    assert!(floats(&shipped).iter().all(|&s| (s - 1.0).abs() < 1e-6));
}

#[test]
fn fed_signal_is_shipped_bit_for_bit() {
    for n in [1usize, 2, 17, 255] {
        let values: Vec<u32> = (0..n as u32).map(|k| k.wrapping_mul(2_654_435_761)).collect();
        let (producer, mut consumer) = rtrb::RingBuffer::<AudioFrame>::new(4);
        let mut g = Graph::new();
        let src = g.add_node(Box::new(SourceNode::new(1)));
        let sink = g.add_sink(Box::new(RingSink::new(producer, 1, 48_000, n)));
        g.link((src, 0), (sink, 0)).unwrap();
        g.compile(GraphConfig::new(n, 48_000, 1)).unwrap();
        g.feed(src, 0, &AudioFrame::from_planar(1, 48_000, values.clone()));
        let mut ctx = ProcessContext::new(n, 0, 48_000);
        g.process_cycle(&mut ctx).unwrap();
        assert_eq!(g.flush_sinks(), (1, None));
        assert_eq!(consumer.pop(), Ok(AudioFrame::from_planar(1, 48_000, values)));
    }
}

#[test]
fn ring_takes_as_many_frames_as_it_has_room_for() {
    for capacity in 1usize..8 {
        let (producer, _consumer) = rtrb::RingBuffer::<AudioFrame>::new(capacity);
        let mut g = Graph::new();
        let src = g.add_node(Box::new(SourceNode::new(1)));
        let sink = g.add_sink(Box::new(RingSink::new(producer, 1, 48_000, 4)));
        g.link((src, 0), (sink, 0)).unwrap();
        g.compile(GraphConfig::new(4, 48_000, 1)).unwrap();
        let mut ctx = ProcessContext::new(4, 0, 48_000);
        for k in 0..capacity + 3 {
            g.process_cycle(&mut ctx).unwrap();
            let expected = if k < capacity { None } else { Some(FlushError::RingFull(1)) };
            assert_eq!(g.flush_sinks(), (1, expected));
        }
    }
}

/// A sink that counts its flushes and answers each with a fixed result.
struct CountingSink {
    in_port: [PortDescriptor; 1],
    result: Result<(), FlushError>,
    flushes: std::sync::mpsc::Sender<usize>,
    label: usize,
}

impl AudioNode for CountingSink {
    fn inputs(&self) -> &[PortDescriptor] {
        &self.in_port
    }

    fn outputs(&self) -> &[PortDescriptor] {
        &[]
    }

    fn process(&mut self, _: &mut ProcessContext, _: &[AudioFrame], _: &mut [AudioFrame]) {}
}

impl Flushable for CountingSink {
    fn flush(&mut self) -> Result<(), FlushError> {
        self.flushes.send(self.label).unwrap();
        self.result
    }
}

#[test]
fn failing_sink_does_not_keep_others_from_being_flushed() {
    let (tx, rx) = std::sync::mpsc::channel();
    let mut g = Graph::new();
    let results = [
        Ok(()),
        Err(FlushError::RingFull(2)),
        Err(FlushError::RingFull(5)),
        Ok(()),
    ];
    for (label, result) in results.into_iter().enumerate() {
        let _ = g.add_node(Box::new(SourceNode::new(1)));
        let _ = g.add_sink(Box::new(CountingSink {
            in_port: [PortDescriptor::input(1, SampleFormat::F32)],
            result,
            flushes: tx.clone(),
            label,
        }));
    }
    assert_eq!(g.flush_sinks(), (4, Some(FlushError::RingFull(2))));
    let flushed: Vec<usize> = rx.try_iter().collect();
    assert_eq!(flushed, vec![0, 1, 2, 3]);
    assert_eq!(g.flush_sink(5), Err(FlushError::RingFull(5)));
    assert_eq!(g.flush_sink(7), Ok(()));
    let flushed: Vec<usize> = rx.try_iter().collect();
    assert_eq!(flushed, vec![2, 3]);
}

#[test]
fn graph_without_sinks_flushes_none() {
    let mut g = Graph::new();
    assert_eq!(g.flush_sinks(), (0, None));
    let _ = g.add_node(Box::new(SourceNode::new(1)));
    assert_eq!(g.flush_sinks(), (0, None));
}

#[test]
fn plain_nodes_are_never_flushable() {
    for plain_count in 1usize..10 {
        let mut g = Graph::new();
        let mut last = 0;
        for _ in 0..plain_count {
            last = g.add_node(Box::new(SourceNode::new(1)));
        }
        g.compile(GraphConfig::new(4, 48_000, 1)).unwrap();
        assert_eq!(g.flush_sink(last), Err(FlushError::NotFlushable(last)));
    }
}
