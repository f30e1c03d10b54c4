//! The contract between the engine and the nodes that it drives.

use crate::flush::FlushError;
use crate::frame::{AudioFrame, FrameView};
use crate::port::PortDescriptor;
use vstd::prelude::*;

verus! {

/// State describing one processing cycle. It is reused from cycle to cycle.
#[derive(Debug, Clone, Copy, PartialEq, Eq, Structural)]
pub struct ProcessContext {
    /// Number of frames to process in this cycle.
    pub num_frames: usize,
    /// Global sample index anchored to the clock.
    pub sample_position: u64,
    /// Sample rate in Hz.
    pub sample_rate: u32,
    /// `true` when an xrun was detected in the previous cycle.
    pub xrun_detected: bool,
}

impl ProcessContext {
    /// Creates a context in which no xrun was detected.
    #[must_use]
    pub fn new(num_frames: usize, sample_position: u64, sample_rate: u32) -> (r: Self)
        ensures
            r == (ProcessContext {
                num_frames,
                sample_position,
                sample_rate,
                xrun_detected: false,
            }),
    {
        ProcessContext { num_frames, sample_position, sample_rate, xrun_detected: false }
    }
}

/// What a node carries from one cycle to the next.
#[verifier::ext_equal]
pub struct NodeState {
    /// The frames that it keeps.
    pub held: Seq<FrameView>,
    /// What it got each time it asked for a frame from outside the graph, oldest first.
    pub asked: Seq<Option<FrameView>>,
    /// The frames that it has sent out of the graph, oldest first.
    pub shipped: Seq<FrameView>,
    /// Whatever else its behaviour depends on, as numbers.
    pub memory: Seq<int>,
}

/// What passes between the engine and a node when the node processes one cycle.
#[verifier::ext_equal]
pub struct Exchange {
    /// The context that it is given.
    pub ctx: ProcessContext,
    /// The frames of its input ports.
    pub ins: Seq<FrameView>,
    /// The frames of its output ports before the call.
    pub outs: Seq<FrameView>,
    /// The context as it leaves it.
    pub ctx_after: ProcessContext,
    /// The frames of its output ports as it leaves them.
    pub outs_after: Seq<FrameView>,
}

/// The model of a node: its ports and its rules, which are static, and its state.
pub struct NodeModel {
    /// The input ports.
    pub inputs: Seq<PortDescriptor>,
    /// The output ports.
    pub outputs: Seq<PortDescriptor>,
    /// Whether processing may lead from one state to another with a given exchange.
    pub process: spec_fn(NodeState, Exchange, NodeState) -> bool,
    /// Whether flushing may lead from one state to another with a given result. Only sinks are
    /// flushed.
    pub flush: spec_fn(NodeState, Result<(), FlushError>, NodeState) -> bool,
    /// The state.
    pub state: NodeState,
}

/// The flush rule of a node that is no sink: it is never flushed.
pub open spec fn never_flushed() -> spec_fn(NodeState, Result<(), FlushError>, NodeState) -> bool {
    |s: NodeState, r: Result<(), FlushError>, t: NodeState| false
}

/// `after` is the node `before`, in another state.
pub open spec fn same_node(before: NodeModel, after: NodeModel) -> bool {
    after == (NodeModel { state: after.state, ..before })
}

/// The node may process a cycle with the exchange `io` and come out as `after`.
pub open spec fn may_process(before: NodeModel, io: Exchange, after: NodeModel) -> bool {
    &&& same_node(before, after)
    &&& io.outs_after.len() == io.outs.len()
    &&& (before.process)(before.state, io, after.state)
}

/// The node may be flushed with the result `r` and come out as `after`.
pub open spec fn may_flush(
    before: NodeModel,
    r: Result<(), FlushError>,
    after: NodeModel,
) -> bool {
    &&& same_node(before, after)
    &&& (before.flush)(before.state, r, after.state)
}

/// A node of the audio graph.
///
/// The engine asks for the ports while a graph is built and calls `process` once per cycle, in
/// dependency order. `process` runs on the real-time thread: it must not allocate, lock, panic or
/// perform a system call.
pub trait AudioNode: Send {
    /// The node as the engine sees it. A node for which nothing is to be proved leaves it open.
    open spec fn model(&self) -> NodeModel {
        arbitrary()
    }

    /// Returns the metadata of every input port.
    fn inputs(&self) -> (r: &[PortDescriptor])
        ensures
            r@ == self.model().inputs,
    ;

    /// Returns the metadata of every output port.
    fn outputs(&self) -> (r: &[PortDescriptor])
        ensures
            r@ == self.model().outputs,
    ;

    /// Processes one cycle: reads one frame per input port and writes one frame per output port.
    fn process(
        &mut self,
        ctx: &mut ProcessContext,
        in_frames: &[AudioFrame],
        out_frames: &mut [AudioFrame],
    )
        ensures
            may_process(
                old(self).model(),
                (Exchange {
                    ctx: *old(ctx),
                    ins: crate::frame::frame_views(in_frames@),
                    outs: crate::frame::frame_views(old(out_frames)@),
                    ctx_after: *final(ctx),
                    outs_after: crate::frame::frame_views(final(out_frames)@),
                }),
                final(self).model(),
            ),
    ;
}

} // verus!
