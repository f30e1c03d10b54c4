//! Sinks that ship their audio off the real-time thread between cycles.

use crate::frame::AudioFrame;
use crate::graph::NodeId;
use crate::node::{AudioNode, Exchange, NodeModel, ProcessContext};
use crate::port::PortDescriptor;
use crate::text;
use vstd::prelude::*;
use vstd::string::StringExecFns;

verus! {

/// Error from flushing the stashed frame of a sink across its ring.
#[derive(Debug, Clone, Copy, PartialEq, Eq, Structural)]
pub enum FlushError {
    /// The ring was full (an xrun); that many stashed frames were dropped.
    RingFull(usize),
    /// The addressed node is not a flushable sink.
    NotFlushable(NodeId),
    /// The addressed node does not exist.
    NodeNotFound(NodeId),
}

impl FlushError {
    /// The text that describes the error.
    pub open spec fn message(&self) -> Seq<char> {
        match self {
            FlushError::RingFull(frames) => {
                "ring full (xrun): "@ + text::decimal(*frames as nat) + " frame(s) dropped"@
            },
            FlushError::NotFlushable(node) => {
                "node "@ + text::decimal(*node as nat) + " is not a flushable sink"@
            },
            FlushError::NodeNotFound(node) => {
                "node "@ + text::decimal(*node as nat) + " not found"@
            },
        }
    }

    /// Describes the error in words.
    pub fn to_string(&self) -> (r: String)
        ensures
            r@ == self.message(),
    {
        let mut out = String::new();
        match self {
            FlushError::RingFull(frames) => {
                out.append("ring full (xrun): ");
                text::push_decimal(&mut out, *frames);
                out.append(" frame(s) dropped");
            },
            FlushError::NotFlushable(node) => {
                out.append("node ");
                text::push_decimal(&mut out, *node);
                out.append(" is not a flushable sink");
            },
            FlushError::NodeNotFound(node) => {
                out.append("node ");
                text::push_decimal(&mut out, *node);
                out.append(" not found");
            },
        }
        assert(out@ =~= self.message());
        out
    }
}

/// A node that holds back its output and must be flushed between cycles to ship it.
///
/// `flush` may allocate, so it never runs on the real-time thread.
pub trait Flushable: AudioNode {
    /// Ships the stashed frame. Fails with [`FlushError::RingFull`] if there is no room for it.
    fn flush(&mut self) -> (r: Result<(), FlushError>)
        ensures
            crate::node::may_flush(old(self).model(), r, final(self).model()),
    ;
}

/// A sink node: a node of the graph that the engine can flush between cycles.
///
/// Every [`Flushable`] node is a `SinkNode`; the methods here are those of the two traits.
pub trait SinkNode: Send {
    /// [`AudioNode::model`].
    spec fn sink_model(&self) -> NodeModel;

    /// [`AudioNode::inputs`].
    fn sink_inputs(&self) -> (r: &[PortDescriptor])
        ensures
            r@ == self.sink_model().inputs,
    ;

    /// [`AudioNode::outputs`].
    fn sink_outputs(&self) -> (r: &[PortDescriptor])
        ensures
            r@ == self.sink_model().outputs,
    ;

    /// [`AudioNode::process`].
    fn sink_process(
        &mut self,
        ctx: &mut ProcessContext,
        in_frames: &[AudioFrame],
        out_frames: &mut [AudioFrame],
    )
        ensures
            crate::node::may_process(
                old(self).sink_model(),
                (Exchange {
                    ctx: *old(ctx),
                    ins: crate::frame::frame_views(in_frames@),
                    outs: crate::frame::frame_views(old(out_frames)@),
                    ctx_after: *final(ctx),
                    outs_after: crate::frame::frame_views(final(out_frames)@),
                }),
                final(self).sink_model(),
            ),
    ;

    /// [`Flushable::flush`].
    fn sink_flush(&mut self) -> (r: Result<(), FlushError>)
        ensures
            crate::node::may_flush(old(self).sink_model(), r, final(self).sink_model()),
    ;
}

impl<T> SinkNode for T where T: AudioNode + Flushable {
    open spec fn sink_model(&self) -> NodeModel {
        self.model()
    }

    fn sink_inputs(&self) -> (r: &[PortDescriptor]) {
        self.inputs()
    }

    fn sink_outputs(&self) -> (r: &[PortDescriptor]) {
        self.outputs()
    }

    fn sink_process(
        &mut self,
        ctx: &mut ProcessContext,
        in_frames: &[AudioFrame],
        out_frames: &mut [AudioFrame],
    ) {
        self.process(ctx, in_frames, out_frames);
    }

    fn sink_flush(&mut self) -> (r: Result<(), FlushError>) {
        self.flush()
    }
}

/// The text of an error names what the error carries, in its place, whatever it is.
pub proof fn lemma_texts_name_what_flush_errors_carry(frames: usize, node: NodeId)
    ensures
        FlushError::RingFull(frames).message() == "ring full (xrun): "@ + text::decimal(
            frames as nat,
        ) + " frame(s) dropped"@,
        FlushError::NotFlushable(node).message() == "node "@ + text::decimal(node as nat)
            + " is not a flushable sink"@,
        FlushError::NodeNotFound(node).message() == "node "@ + text::decimal(node as nat)
            + " not found"@,
{
}

} // verus!
