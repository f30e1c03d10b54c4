use audio_graph_bsd::{
    AudioFrame, AudioNode, Graph, GraphConfig, GraphError, NodeSnapshot, PortDescriptor, PortDir,
    PortMeta, ProcessContext, RingSink, SampleFmt, SampleFormat, SnapshotEdge, TopologyEvent,
};

/// Zero inputs, one output, and a `process` that does nothing: what is fed survives the cycle.
struct SourceNode {
    out_port: [PortDescriptor; 1],
}

impl SourceNode {
    fn new(channels: u16) -> Self {
        SourceNode { out_port: [PortDescriptor::output(channels, SampleFormat::F32)] }
    }
}

impl AudioNode for SourceNode {
    fn inputs(&self) -> &[PortDescriptor] {
        &[]
    }

    fn outputs(&self) -> &[PortDescriptor] {
        &self.out_port
    }

    fn process(&mut self, _: &mut ProcessContext, _: &[AudioFrame], _: &mut [AudioFrame]) {}
}

fn mono(direction: PortDir) -> PortMeta {
    PortMeta { direction, channels: 1, sample_format: SampleFmt::F32 }
}

#[test]
fn subscriber_is_told_of_every_change_in_order() {
    let mut g = Graph::new();
    let rx = g.subscribe_topology();
    let src = g.add_node(Box::new(SourceNode::new(1)));
    let (producer, _consumer) = rtrb::RingBuffer::<AudioFrame>::new(1);
    let sink = g.add_sink(Box::new(RingSink::new(producer, 1, 48_000, 2)));
    g.link((src, 0), (sink, 0)).unwrap();
    g.compile(GraphConfig::new(2, 48_000, 1)).unwrap();
    let events: Vec<TopologyEvent> = rx.try_iter().collect();
    assert_eq!(
        events,
        vec![
            TopologyEvent::NodeAdded(NodeSnapshot {
                id: 0,
                inputs: vec![],
                outputs: vec![mono(PortDir::Output)],
            }),
            TopologyEvent::NodeAdded(NodeSnapshot {
                id: 1,
                inputs: vec![mono(PortDir::Input)],
                outputs: vec![],
            }),
            TopologyEvent::LinkAdded(SnapshotEdge { from: (0, 0), to: (1, 0) }),
            TopologyEvent::GraphCompiled,
        ]
    );
}

#[test]
fn refused_changes_and_cycles_tell_nobody() {
    let mut g = Graph::new();
    let src = g.add_node(Box::new(SourceNode::new(1)));
    let rx = g.subscribe_topology();
    assert_eq!(g.link((src, 0), (9, 0)), Err(GraphError::NodeNotFound(9)));
    g.compile(GraphConfig::new(2, 48_000, 1)).unwrap();
    assert_eq!(
        g.compile(GraphConfig::new(2, 48_000, 1)),
        Err(GraphError::AlreadyCompiled)
    );
    let mut ctx = ProcessContext::new(2, 0, 48_000);
    g.process_cycle(&mut ctx).unwrap();
    let _ = g.flush_sinks();
    let events: Vec<TopologyEvent> = rx.try_iter().collect();
    assert_eq!(events, vec![TopologyEvent::GraphCompiled]);
}

#[test]
fn dropped_receivers_do_not_disturb_the_others() {
    let mut g = Graph::new();
    let first = g.subscribe_topology();
    let second = g.subscribe_topology();
    let third = g.subscribe_topology();
    let _ = g.add_node(Box::new(SourceNode::new(1)));
    drop(second);
    let _ = g.add_node(Box::new(SourceNode::new(1)));
    drop(first);
    let _ = g.add_node(Box::new(SourceNode::new(1)));
    let ids: Vec<usize> = third
        .try_iter()
        .map(|e| match e {
            TopologyEvent::NodeAdded(ns) => ns.id,
            other => panic!("unexpected {other:?}"),
        })
        .collect();
    assert_eq!(ids, vec![0, 1, 2]);
}

#[test]
fn only_reached_subscribers_are_kept() {
    let mut senders = Vec::new();
    let mut receivers = Vec::new();
    for _ in 0..4 {
        let (tx, rx) = std::sync::mpsc::channel();
        senders.push(tx);
        receivers.push(rx);
    }
    audio_graph_bsd::events::keep_reached(&mut senders, &[false, true, false, true]);
    assert_eq!(senders.len(), 2);
    for (k, tx) in senders.iter().enumerate() {
        tx.send(TopologyEvent::NodeRemoved(k)).unwrap();
    }
    assert_eq!(receivers[1].try_recv(), Ok(TopologyEvent::NodeRemoved(0)));
    assert_eq!(receivers[3].try_recv(), Ok(TopologyEvent::NodeRemoved(1)));
    assert!(receivers[0].try_recv().is_err());
    assert!(receivers[2].try_recv().is_err());
}

#[test]
fn late_subscriber_hears_only_what_comes_later() {
    let mut g = Graph::new();
    let early = g.subscribe_topology();
    let _ = g.add_node(Box::new(SourceNode::new(1)));
    let late = g.subscribe_topology();
    let _ = g.add_node(Box::new(SourceNode::new(1)));
    g.compile(GraphConfig::new(2, 48_000, 1)).unwrap();
    let early: Vec<TopologyEvent> = early.try_iter().collect();
    let late: Vec<TopologyEvent> = late.try_iter().collect();
    assert_eq!(early.len(), 3);
    assert_eq!(late, early[1..]);
}
