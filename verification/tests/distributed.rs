use audio_graph_bsd::{
    AudioFrame, AudioNode, BoundaryPort, Graph, GraphConfig, GraphError, GraphPartition,
    NetworkLinkNode, PartitionHint, PortDescriptor, PortDir, PortKind, ProcessContext, RemoteNode,
    RingSink, RingSource, SampleFormat, TransportHint,
};

/// One input, one output: scales every sample by `gain`.
struct GainNode {
    gain: f32,
    in_port: [PortDescriptor; 1],
    out_port: [PortDescriptor; 1],
}

impl GainNode {
    fn new(gain: f32) -> Self {
        GainNode {
            gain,
            in_port: [PortDescriptor::input(1, SampleFormat::F32)],
            out_port: [PortDescriptor::output(1, SampleFormat::F32)],
        }
    }
}

impl AudioNode for GainNode {
    fn inputs(&self) -> &[PortDescriptor] {
        &self.in_port
    }

    fn outputs(&self) -> &[PortDescriptor] {
        &self.out_port
    }

    fn process(
        &mut self,
        _: &mut ProcessContext,
        in_frames: &[AudioFrame],
        out_frames: &mut [AudioFrame],
    ) {
        let (Some(inp), Some(out)) = (in_frames.first(), out_frames.get_mut(0)) else {
            return;
        };
        let n = inp.samples.len().min(out.samples.len());
        for k in 0..n {
            out.samples[k] = (f32::from_bits(inp.samples[k]) * self.gain).to_bits();
        }
    }
}

/// A frame of the given samples.
fn frame(channels: u16, sample_rate: u32, samples: &[f32]) -> AudioFrame {
    AudioFrame::from_planar(channels, sample_rate, samples.iter().map(|s| s.to_bits()).collect())
}

/// The samples of a frame.
fn floats(frame: &AudioFrame) -> Vec<f32> {
    frame.samples.iter().map(|&s| f32::from_bits(s)).collect()
}

fn remote(node_id: usize, host: &str, port: u16, transport_hint: TransportHint) -> RemoteNode {
    RemoteNode { node_id, host: host.to_string(), port, transport_hint }
}

#[test]
fn port_kind_local_vs_network() {
    let local = PortKind::Local;
    let far = RemoteNode {
        node_id: 1,
        host: "host".to_string(),
        port: 10,
        transport_hint: TransportHint::Aes67,
    };
    let net = PortKind::Network { remote: far.clone() };
    assert_eq!(local, PortKind::Local);
    let PortKind::Network { remote: r } = &net else {
        panic!("expected Network");
    };
    assert_eq!(r, &far);
}

#[test]
fn partition_hint_construction() {
    let bp = BoundaryPort {
        node: 0,
        port: 0,
        kind: PortKind::Network {
            remote: RemoteNode {
                node_id: 9,
                host: "h".to_string(),
                port: 1,
                transport_hint: TransportHint::Custom,
            },
        },
        direction: PortDir::Output,
    };
    let hint = PartitionHint { local_nodes: vec![0, 1], boundary_ports: vec![bp.clone()] };
    assert_eq!(hint.local_nodes, vec![0, 1]);
    assert_eq!(hint.boundary_ports, vec![bp]);
}

#[test]
fn graph_partition_delegates_compile_and_process() {
    let mut g = Graph::new();
    let a = g.add_node(Box::new(GainNode::new(1.0)));
    let b = g.add_node(Box::new(GainNode::new(1.0)));
    g.link((a, 0), (b, 0)).unwrap();

    let boundary = vec![BoundaryPort {
        node: b,
        port: 0,
        kind: PortKind::Network { remote: remote(100, "remote", 5004, TransportHint::Rtp) },
        direction: PortDir::Output,
    }];
    let mut part = GraphPartition::new(g, boundary);
    part.compile(GraphConfig::new(8, 48_000, 1)).unwrap();
    let mut ctx = ProcessContext::new(8, 0, 48_000);
    part.process_cycle(&mut ctx).unwrap();
    assert_eq!(part.boundary().len(), 1);
    assert_eq!(part.boundary()[0].node, b);
    assert_eq!(part.graph().node_count(), 2);
    assert_eq!(part.graph().link_count(), 1);
}

#[test]
fn partition_hints_returns_one_hint_with_boundary() {
    let mut g = Graph::new();
    let a = g.add_node(Box::new(GainNode::new(1.0)));
    let far = remote(5, "far", 6004, TransportHint::Aes67);
    let hints = g.partition_hints(&[(a, 0, far.clone())]);
    assert_eq!(hints.len(), 1);
    let hint = &hints[0];
    assert_eq!(hint.local_nodes, vec![a]);
    assert_eq!(hint.boundary_ports.len(), 1);
    let bp = &hint.boundary_ports[0];
    assert_eq!(bp.node, a);
    assert_eq!(bp.port, 0);
    assert_eq!(bp.direction, PortDir::Output);
    let PortKind::Network { remote: r } = &bp.kind else {
        panic!("expected Network");
    };
    assert_eq!(r, &far);
}

#[test]
fn partition_hints_skips_out_of_range_port() {
    let mut g = Graph::new();
    let a = g.add_node(Box::new(GainNode::new(1.0)));
    let far = remote(5, "far", 6004, TransportHint::Rtp);
    let hints = g.partition_hints(&[(a, 99, far)]);
    assert_eq!(hints.len(), 1);
    assert_eq!(hints[0].local_nodes, vec![a]);
    assert!(hints[0].boundary_ports.is_empty());
}

#[test]
fn hints_keep_the_order_of_the_declarations() {
    let (producer, _consumer) = rtrb::RingBuffer::<AudioFrame>::new(1);
    let mut g = Graph::new();
    let gain = g.add_node(Box::new(GainNode::new(1.0)));
    let sink = g.add_node(Box::new(RingSink::new(producer, 1, 48_000, 1)));
    let far = remote(5, "far", 6004, TransportHint::Custom);
    let hints = g.partition_hints(&[
        (sink, 0, far.clone()),
        (sink, 1, far.clone()),
        (7, 0, far.clone()),
        (gain, 0, far.clone()),
    ]);
    let port = |node, direction| BoundaryPort {
        node,
        port: 0,
        kind: PortKind::Network { remote: far.clone() },
        direction,
    };
    assert_eq!(
        hints,
        vec![PartitionHint {
            local_nodes: vec![gain, sink],
            boundary_ports: vec![port(sink, PortDir::Input), port(gain, PortDir::Output)],
        }]
    );
    assert_eq!(hints[0].clone(), hints[0]);
    assert_eq!(PortKind::Local.clone(), PortKind::Local);
}

#[test]
fn two_partitions_run_independently_without_panic() {
    const N: usize = 64;

    let (mut prod_a, cons_a) = rtrb::RingBuffer::<AudioFrame>::new(4);
    let (prod_out_a, _cons_out_a) = rtrb::RingBuffer::<AudioFrame>::new(4);
    let mut ga = Graph::new();
    let sa = ga.add_node(Box::new(RingSource::new(cons_a, 1, 48_000, N)));
    let na = ga.add_node(Box::new(GainNode::new(0.5)));
    let ka = ga.add_node(Box::new(RingSink::new(prod_out_a, 1, 48_000, N)));
    ga.link((sa, 0), (na, 0)).unwrap();
    ga.link((na, 0), (ka, 0)).unwrap();
    let mut pa = GraphPartition::new(ga, vec![]);
    pa.compile(GraphConfig::new(N, 48_000, 1)).unwrap();

    let (mut prod_b, cons_b) = rtrb::RingBuffer::<AudioFrame>::new(4);
    let (prod_out_b, _cons_out_b) = rtrb::RingBuffer::<AudioFrame>::new(4);
    let mut gb = Graph::new();
    let sb = gb.add_node(Box::new(RingSource::new(cons_b, 1, 48_000, N)));
    let nb = gb.add_node(Box::new(GainNode::new(2.0)));
    let kb = gb.add_node(Box::new(RingSink::new(prod_out_b, 1, 48_000, N)));
    gb.link((sb, 0), (nb, 0)).unwrap();
    gb.link((nb, 0), (kb, 0)).unwrap();
    let mut pb = GraphPartition::new(gb, vec![]);
    pb.compile(GraphConfig::new(N, 48_000, 1)).unwrap();

    for _ in 0..4 {
        let _ = prod_a.push(frame(1, 48_000, &[0.5; N]));
        let _ = prod_b.push(frame(1, 48_000, &[0.25; N]));
    }
    let mut ctx = ProcessContext::new(N, 0, 48_000);
    for _ in 0..1000 {
        pa.process_cycle(&mut ctx).unwrap();
        pb.process_cycle(&mut ctx).unwrap();
    }

    let stash_a = pa.graph().read_input(ka, 0).unwrap();
    assert!(floats(stash_a).iter().all(|s| s.is_finite()));
    assert_eq!(floats(stash_a), vec![0.25; N]);
    assert_eq!(floats(pb.graph().read_input(kb, 0).unwrap()), vec![0.5; N]);
}

#[test]
fn partition_compile_then_process_is_isolated() {
    const N: usize = 32;
    let (_prod, cons) = rtrb::RingBuffer::<AudioFrame>::new(2);
    let mut g = Graph::new();
    let s = g.add_node(Box::new(RingSource::new(cons, 1, 48_000, N)));
    let n = g.add_node(Box::new(GainNode::new(1.0)));
    g.link((s, 0), (n, 0)).unwrap();
    let mut p = GraphPartition::new(g, vec![]);
    p.compile(GraphConfig::new(N, 48_000, 1)).unwrap();
    assert_eq!(p.boundary().len(), 0);
    let mut ctx = ProcessContext::new(N, 0, 48_000);
    p.process_cycle(&mut ctx).unwrap();
    assert_eq!(p.graph().node_count(), 2);
}

#[test]
fn partition_reports_the_errors_of_its_graph() {
    let mut p = GraphPartition::new(Graph::new(), vec![]);
    let mut ctx = ProcessContext::new(4, 0, 48_000);
    assert_eq!(p.process_cycle(&mut ctx), Err(GraphError::NotCompiled));
    let added = p.graph_mut().add_node(Box::new(GainNode::new(1.0)));
    assert_eq!(added, 0);
    assert_eq!(p.graph().node_count(), 1);
    assert_eq!(p.compile(GraphConfig::new(4, 48_000, 1)), Ok(()));
    assert_eq!(
        p.compile(GraphConfig::new(4, 48_000, 1)),
        Err(GraphError::AlreadyCompiled)
    );
}

/// A gain node that claims to be linked to a remote node.
struct LinkedGain {
    gain: GainNode,
    far: RemoteNode,
}

impl AudioNode for LinkedGain {
    fn inputs(&self) -> &[PortDescriptor] {
        self.gain.inputs()
    }

    fn outputs(&self) -> &[PortDescriptor] {
        self.gain.outputs()
    }

    fn process(&mut self, ctx: &mut ProcessContext, i: &[AudioFrame], o: &mut [AudioFrame]) {
        self.gain.process(ctx, i, o);
    }
}

impl NetworkLinkNode for LinkedGain {
    fn remote(&self) -> &RemoteNode {
        &self.far
    }
}

#[test]
fn network_link_node_names_its_remote() {
    let far = remote(3, "10.0.0.7", 5004, TransportHint::Rtp);
    let node = LinkedGain { gain: GainNode::new(1.0), far: far.clone() };
    assert_eq!(node.remote(), &far);
    let mut g = Graph::new();
    assert_eq!(g.add_node(Box::new(node)), 0);
}
