//! Bridges between worker threads and the graph, over wait-free rings: [`RingSource`] brings audio
//! into the graph, [`RingSink`] takes audio out of it.

use crate::flush::{FlushError, Flushable};
use crate::frame::{AudioFrame, FrameView};
use crate::node::{AudioNode, Exchange, NodeModel, NodeState, ProcessContext};
use crate::port::{PortDescriptor, PortDirection, SampleFormat};
use rtrb::{Consumer, Producer};
use vstd::prelude::*;

verus! {

/// `rtrb::Producer`, the writing end of a ring.
#[verifier::external_type_specification]
#[verifier::external_body]
#[verifier::reject_recursive_types(T)]
pub struct ExProducer<T>(rtrb::Producer<T>);

/// `rtrb::Consumer`, the reading end of a ring.
#[verifier::external_type_specification]
#[verifier::external_body]
#[verifier::reject_recursive_types(T)]
pub struct ExConsumer<T>(rtrb::Consumer<T>);

/// The ring that `p` puts frames into.
pub uninterp spec fn pushes_into(p: Producer<AudioFrame>) -> int;

/// The frames that were put into the ring through `p`, oldest first.
pub uninterp spec fn frames_pushed(p: Producer<AudioFrame>) -> Seq<FrameView>;

/// The number of frames that the ring of `p` has room for.
pub uninterp spec fn ring_capacity(p: Producer<AudioFrame>) -> nat;

/// The ring that `c` takes frames out of.
pub uninterp spec fn pops_from(c: Consumer<AudioFrame>) -> int;

/// What each attempt to take a frame out of the ring through `c` gave, oldest first.
pub uninterp spec fn pops(c: Consumer<AudioFrame>) -> Seq<Option<FrameView>>;

/// The frame that is put into `ring` as number `n`, counted from zero, earlier or later.
pub uninterp spec fn nth_frame(ring: int, n: int) -> FrameView;

/// Frame number `n` is still in `ring` when, from it on, as many frames have been put in as there is
/// room for.
pub uninterp spec fn fell_behind(ring: int, n: int) -> bool;

/// Frame number `n` is taken out of `ring`, earlier or later.
pub uninterp spec fn taken_out(ring: int, n: int) -> bool;

/// The reader of `ring` asks for frame number `n` before it is put in.
pub uninterp spec fn asked_early(ring: int, n: int) -> bool;

/// The frames among what was asked for.
pub open spec fn received(asked: Seq<Option<FrameView>>) -> Seq<FrameView>
    decreases asked.len(),
{
    if asked.len() == 0 {
        Seq::empty()
    } else {
        match asked.last() {
            Some(frame) => received(asked.drop_last()).push(frame),
            None => received(asked.drop_last()),
        }
    }
}

/// After `count` pushes there is or comes to be room in `ring` for another frame: it is not filled
/// yet, or the oldest of as many frames as it has room for is taken out.
pub open spec fn room_made(ring: int, capacity: int, count: nat) -> bool {
    count >= capacity ==> taken_out(ring, count - capacity)
}

/// A ring with room for `capacity` frames can exist: they take up at most `isize::MAX` bytes.
pub open spec fn ring_fits(capacity: usize) -> bool {
    capacity * 32 <= isize::MAX
}

/// Calls `rtrb::RingBuffer::new`, which makes an empty ring of the given capacity and returns its
/// two ends.
#[verifier::external_body]
fn open_ring(capacity: usize) -> (r: (Producer<AudioFrame>, Consumer<AudioFrame>))
    requires
        ring_fits(capacity),
    ensures
        pushes_into(r.0) == pops_from(r.1),
        ring_capacity(r.0) == capacity,
        frames_pushed(r.0) == Seq::<FrameView>::empty(),
        pops(r.1) == Seq::<Option<FrameView>>::empty(),
{
    rtrb::RingBuffer::new(capacity)
}

/// Calls `rtrb::Producer::push`. On success the frame has been put into the ring, as the next one of
/// those that go through it; if as many frames were put in before as the ring has room for, the
/// oldest of those has been taken out. A push fails only if the ring is full, so not before as many
/// frames were put into it as it has room for, and only if the oldest of those is still in it; then
/// the frame comes back and the ring is as it was. Whether a ring that was filled has room again
/// depends on the thread that pops, so the contract leaves that open.
#[verifier::external_body]
fn push(p: &mut Producer<AudioFrame>, frame: AudioFrame) -> (r: Result<(), AudioFrame>)
    ensures
        ring_capacity(*final(p)) == ring_capacity(*old(p)),
        pushes_into(*final(p)) == pushes_into(*old(p)),
        match r {
            Ok(()) => {
                &&& frames_pushed(*final(p)) == frames_pushed(*old(p)).push(frame@)
                &&& nth_frame(pushes_into(*final(p)), frames_pushed(*old(p)).len() as int) == frame@
                &&& frames_pushed(*old(p)).len() >= ring_capacity(*old(p)) ==> taken_out(
                    pushes_into(*final(p)),
                    frames_pushed(*old(p)).len() - ring_capacity(*old(p)),
                )
            },
            Err(back) => {
                &&& back@ == frame@
                &&& frames_pushed(*final(p)) == frames_pushed(*old(p))
                &&& frames_pushed(*final(p)).len() >= ring_capacity(*final(p))
                &&& fell_behind(
                    pushes_into(*final(p)),
                    frames_pushed(*final(p)).len() - ring_capacity(*final(p)),
                )
            },
        },
{
    match p.push(frame) {
        Ok(()) => Ok(()),
        Err(rtrb::PushError::Full(back)) => Err(back),
    }
}

/// Calls `rtrb::Consumer::pop`. A frame that comes back has been taken out of the ring, and is the
/// next one of those that go through it, in the order in which they are put in; without one,
/// nothing has been taken out, because the next one is not in the ring yet. Which of the two
/// happens depends on the thread that pushes, so the contract leaves that open.
#[verifier::external_body]
fn pop(c: &mut Consumer<AudioFrame>) -> (r: Option<AudioFrame>)
    ensures
        pops_from(*final(c)) == pops_from(*old(c)),
        match r {
            Some(frame) => {
                &&& pops(*final(c)) == pops(*old(c)).push(Some(frame@))
                &&& frame@ == nth_frame(
                    pops_from(*old(c)),
                    received(pops(*old(c))).len() as int,
                )
            },
            None => {
                &&& pops(*final(c)) == pops(*old(c)).push(None)
                &&& asked_early(
                    pops_from(*final(c)),
                    received(pops(*old(c))).len() as int,
                )
            },
        },
{
    c.pop().ok()
}

/// Makes an empty ring with room for `capacity` frames and returns its two ends, for a
/// [`RingSink`] and whoever reads from it, or for a [`RingSource`] and whoever writes to it.
#[must_use]
pub fn new_ring(capacity: usize) -> (r: (Producer<AudioFrame>, Consumer<AudioFrame>))
    requires
        ring_fits(capacity),
    ensures
        pushes_into(r.0) == pops_from(r.1),
        ring_capacity(r.0) == capacity,
        frames_pushed(r.0) == Seq::<FrameView>::empty(),
        pops(r.1) == Seq::<Option<FrameView>>::empty(),
{
    open_ring(capacity)
}

/// Why a frame could not be pushed into a ring.
#[derive(Debug, PartialEq, Eq)]
pub enum PushError {
    /// The ring was full; the frame comes back.
    Full(AudioFrame),
}

/// What a [`RingSource`] puts out and keeps, given the frame that it popped, if any: that frame, or
/// the last one again.
pub open spec fn sourced(
    last: FrameView,
    popped: Option<FrameView>,
    outs: Seq<FrameView>,
) -> (FrameView, Seq<FrameView>) {
    let frame = match popped {
        Some(frame) => frame,
        None => last,
    };
    let kept = match popped {
        Some(frame) => crate::frame::copied_over(last, frame),
        None => last,
    };
    (kept, outs.update(0, crate::frame::copied_over(outs[0], frame)))
}

/// What a pop from `ring` may give after `asked`: the next frame that goes through the ring, or none
/// if it was asked for too early.
pub open spec fn may_pop(
    ring: int,
    asked: Seq<Option<FrameView>>,
    popped: Option<FrameView>,
) -> bool {
    let next = received(asked).len() as int;
    match popped {
        Some(frame) => frame == nth_frame(ring, next),
        None => asked_early(ring, next),
    }
}

/// How a [`RingSource`] processes a cycle: without output frames it does nothing; otherwise it asks
/// its ring, which it remembers, for one frame, and puts out and keeps what follows.
pub open spec fn ring_source_rule() -> spec_fn(NodeState, Exchange, NodeState) -> bool {
    |s: NodeState, io: Exchange, t: NodeState|
        {
            let popped = t.asked.last();
            let (kept, outs) = sourced(s.held[0], popped, io.outs);
            &&& io.ctx_after == io.ctx
            &&& if io.outs.len() == 0 {
                io.outs_after == io.outs && t == s
            } else {
                &&& io.outs_after == outs
                &&& t == (NodeState { held: seq![kept], asked: s.asked.push(popped), ..s })
                &&& may_pop(s.memory[0], s.asked, popped)
            }
        }
}

/// A source node that brings in audio from a worker thread.
///
/// In every cycle it pops at most one frame from its ring and writes it to its single output port.
/// If the ring is empty it repeats the last frame, so that the signal holds instead of dropping to
/// silence. Processing pops without waiting and copies into frames of fixed size.
pub struct RingSource {
    consumer: Consumer<AudioFrame>,
    in_ports: [PortDescriptor; 0],
    out_port: [PortDescriptor; 1],
    last: AudioFrame,
}

impl RingSource {
    /// The end of the ring that the source pops from.
    pub closed spec fn ring(&self) -> Consumer<AudioFrame> {
        self.consumer
    }

    /// What each pop gave so far, oldest first.
    pub open spec fn popped(&self) -> Seq<Option<FrameView>> {
        pops(self.ring())
    }

    /// The last frame received.
    pub closed spec fn last_frame(&self) -> FrameView {
        self.last@
    }

    /// The output port.
    pub closed spec fn port(&self) -> PortDescriptor {
        self.out_port@[0]
    }

    /// Creates a source that pops from `consumer`. Its last frame is silence of the given size, so
    /// that it puts out silence until the first frame arrives.
    #[must_use]
    pub fn new(
        consumer: Consumer<AudioFrame>,
        channels: u16,
        sample_rate: u32,
        num_frames: usize,
    ) -> (r: Self)
        requires
            crate::frame::frame_fits(channels, num_frames),
        ensures
            r.ring() == consumer,
            r.last_frame() == crate::frame::silent_frame(channels, num_frames, sample_rate),
            r.port() == (PortDescriptor {
                direction: PortDirection::Output,
                channels,
                sample_format: SampleFormat::F32,
            }),
    {
        RingSource {
            consumer,
            in_ports: [],
            out_port: [PortDescriptor::new(PortDirection::Output, channels, SampleFormat::F32)],
            last: AudioFrame::silence(channels, num_frames, sample_rate),
        }
    }

    /// Borrows the consumer.
    #[must_use]
    pub fn consumer(&self) -> (r: &Consumer<AudioFrame>)
        ensures
            *r == self.ring(),
    {
        &self.consumer
    }

    /// Borrows the last frame received.
    #[must_use]
    pub fn last(&self) -> (r: &AudioFrame)
        ensures
            r@ == self.last_frame(),
    {
        &self.last
    }

    /// Puts out a frame that was popped, and keeps it as the last one, or puts out the last frame
    /// again if there is none. Does nothing without an output frame.
    pub fn emit(&mut self, popped: Option<AudioFrame>, out_frames: &mut [AudioFrame])
        ensures
            final(self).ring() == old(self).ring(),
            final(self).port() == old(self).port(),
            old(out_frames)@.len() == 0 ==> *final(self) == *old(self) && final(out_frames)@
                == old(out_frames)@,
            old(out_frames)@.len() > 0 ==> (
                final(self).last_frame(),
                crate::frame::frame_views(final(out_frames)@),
            ) == sourced(
                old(self).last_frame(),
                match popped {
                    Some(frame) => Some(frame@),
                    None => None,
                },
                crate::frame::frame_views(old(out_frames)@),
            ),
    {
        if out_frames.len() == 0 {
            return;
        }
        match popped {
            Some(frame) => {
                out_frames[0].copy_from(&frame);
                self.last.copy_from(&frame);
                assert(crate::frame::frame_views(out_frames@) =~= crate::frame::frame_views(
                    old(out_frames)@,
                ).update(0, crate::frame::copied_over(old(out_frames)@[0]@, frame@)));
            },
            None => {
                out_frames[0].copy_from(&self.last);
                assert(crate::frame::frame_views(out_frames@) =~= crate::frame::frame_views(
                    old(out_frames)@,
                ).update(0, crate::frame::copied_over(old(out_frames)@[0]@, self.last@)));
            },
        }
    }
}

impl AudioNode for RingSource {
    open spec fn model(&self) -> NodeModel {
        NodeModel {
            inputs: Seq::empty(),
            outputs: seq![self.port()],
            process: ring_source_rule(),
            flush: crate::node::never_flushed(),
            state: NodeState {
                held: seq![self.last_frame()],
                asked: self.popped(),
                shipped: Seq::empty(),
                memory: seq![pops_from(self.ring())],
            },
        }
    }

    fn inputs(&self) -> (r: &[PortDescriptor]) {
        let r: &[PortDescriptor] = &self.in_ports;
        assert(r@ =~= Seq::empty());
        r
    }

    fn outputs(&self) -> (r: &[PortDescriptor]) {
        let r: &[PortDescriptor] = &self.out_port;
        assert(r@ =~= seq![self.port()]);
        r
    }

    fn process(
        &mut self,
        ctx: &mut ProcessContext,
        in_frames: &[AudioFrame],
        out_frames: &mut [AudioFrame],
    ) {
        if out_frames.len() == 0 {
            return;
        }
        let popped = pop(&mut self.consumer);
        self.emit(popped, out_frames);
    }
}

/// How a [`RingSink`] processes a cycle: it copies its input over the frame that it holds.
pub open spec fn ring_sink_rule() -> spec_fn(NodeState, Exchange, NodeState) -> bool {
    |s: NodeState, io: Exchange, t: NodeState|
        {
            &&& io.ctx_after == io.ctx
            &&& io.outs_after == io.outs
            &&& t == (NodeState {
                held: if io.ins.len() == 0 {
                    s.held
                } else {
                    seq![crate::frame::copied_over(s.held[0], io.ins[0])]
                },
                ..s
            })
        }
}

/// A push into `ring`, which has room for `capacity` frames, may fail after `count` pushes: the ring
/// was filled, and the oldest frame in it is still there.
pub open spec fn may_be_full(ring: int, capacity: int, count: nat) -> bool {
    count >= capacity && fell_behind(ring, count - capacity)
}

/// How a [`RingSink`] is flushed: it ships the frame that it holds, as the next one that goes through
/// its ring, and goes on holding it. It fails if the ring is full, and only then; one frame is
/// dropped then. It remembers the capacity of its ring and the ring.
pub open spec fn ring_sink_flush_rule() -> spec_fn(
    NodeState,
    Result<(), FlushError>,
    NodeState,
) -> bool {
    |s: NodeState, r: Result<(), FlushError>, t: NodeState|
        match r {
            Ok(()) => {
                &&& t == (NodeState { shipped: s.shipped.push(s.held[0]), ..s })
                &&& nth_frame(s.memory[1], s.shipped.len() as int) == s.held[0]
                &&& room_made(s.memory[1], s.memory[0], s.shipped.len())
            },
            Err(e) => {
                &&& e == FlushError::RingFull(1)
                &&& t == s
                &&& may_be_full(s.memory[1], s.memory[0], s.shipped.len())
            },
        }
}

/// A sink node that hands audio to a worker thread.
///
/// In every cycle it copies its single input into its stash. Pushing the stash into the ring takes
/// a clone, so that is left to [`RingSink::flush`], off the real-time thread.
pub struct RingSink {
    producer: Producer<AudioFrame>,
    in_port: [PortDescriptor; 1],
    out_ports: [PortDescriptor; 0],
    stash: AudioFrame,
}

impl RingSink {
    /// The end of the ring that the sink pushes into.
    pub closed spec fn ring(&self) -> Producer<AudioFrame> {
        self.producer
    }

    /// The frames that were pushed so far, oldest first.
    pub open spec fn pushed(&self) -> Seq<FrameView> {
        frames_pushed(self.ring())
    }

    /// The stashed frame.
    pub closed spec fn stashed(&self) -> FrameView {
        self.stash@
    }

    /// The input port.
    pub closed spec fn port(&self) -> PortDescriptor {
        self.in_port@[0]
    }

    /// Creates a sink that pushes into `producer`. Its stash is silence of the given size.
    #[must_use]
    pub fn new(
        producer: Producer<AudioFrame>,
        channels: u16,
        sample_rate: u32,
        num_frames: usize,
    ) -> (r: Self)
        requires
            crate::frame::frame_fits(channels, num_frames),
        ensures
            r.ring() == producer,
            r.stashed() == crate::frame::silent_frame(channels, num_frames, sample_rate),
            r.port() == (PortDescriptor {
                direction: PortDirection::Input,
                channels,
                sample_format: SampleFormat::F32,
            }),
    {
        RingSink {
            producer,
            in_port: [PortDescriptor::new(PortDirection::Input, channels, SampleFormat::F32)],
            out_ports: [],
            stash: AudioFrame::silence(channels, num_frames, sample_rate),
        }
    }

    /// Pushes a copy of the stash into the ring and keeps the stash. Meant for a worker thread:
    /// it allocates.
    ///
    /// Fails if the ring is full; then the copy comes back. It cannot be full before as many frames
    /// were pushed as it has room for, nor as long as the reader takes frames out in time; after
    /// that it is full until the reader takes the oldest frame out.
    pub fn flush(&mut self) -> (r: Result<(), PushError>)
        ensures
            final(self).stashed() == old(self).stashed(),
            final(self).port() == old(self).port(),
            ring_capacity(final(self).ring()) == ring_capacity(old(self).ring()),
            pushes_into(final(self).ring()) == pushes_into(old(self).ring()),
            match r {
                Ok(()) => {
                    &&& final(self).pushed() == old(self).pushed().push(old(self).stashed())
                    &&& nth_frame(
                        pushes_into(old(self).ring()),
                        old(self).pushed().len() as int,
                    ) == old(self).stashed()
                    &&& room_made(
                        pushes_into(old(self).ring()),
                        ring_capacity(old(self).ring()) as int,
                        old(self).pushed().len(),
                    )
                },
                Err(PushError::Full(frame)) => {
                    &&& frame@ == old(self).stashed()
                    &&& final(self).pushed() == old(self).pushed()
                    &&& may_be_full(
                        pushes_into(old(self).ring()),
                        ring_capacity(old(self).ring()) as int,
                        old(self).pushed().len(),
                    )
                },
            },
    {
        match push(&mut self.producer, self.stash.clone()) {
            Ok(()) => Ok(()),
            Err(frame) => Err(PushError::Full(frame)),
        }
    }

    /// Borrows the producer.
    #[must_use]
    pub fn producer(&self) -> (r: &Producer<AudioFrame>)
        ensures
            *r == self.ring(),
    {
        &self.producer
    }

    /// Borrows the stashed frame.
    #[must_use]
    pub fn stash(&self) -> (r: &AudioFrame)
        ensures
            r@ == self.stashed(),
    {
        &self.stash
    }
}

impl AudioNode for RingSink {
    open spec fn model(&self) -> NodeModel {
        NodeModel {
            inputs: seq![self.port()],
            outputs: Seq::empty(),
            process: ring_sink_rule(),
            flush: ring_sink_flush_rule(),
            state: NodeState {
                held: seq![self.stashed()],
                asked: Seq::empty(),
                shipped: self.pushed(),
                memory: seq![ring_capacity(self.ring()) as int, pushes_into(self.ring())],
            },
        }
    }

    fn inputs(&self) -> (r: &[PortDescriptor]) {
        let r: &[PortDescriptor] = &self.in_port;
        assert(r@ =~= seq![self.port()]);
        r
    }

    fn outputs(&self) -> (r: &[PortDescriptor]) {
        let r: &[PortDescriptor] = &self.out_ports;
        assert(r@ =~= Seq::empty());
        r
    }

    fn process(
        &mut self,
        ctx: &mut ProcessContext,
        in_frames: &[AudioFrame],
        out_frames: &mut [AudioFrame],
    ) {
        if in_frames.len() > 0 {
            self.stash.copy_from(&in_frames[0]);
        }
    }
}

impl Flushable for RingSink {
    fn flush(&mut self) -> (r: Result<(), FlushError>) {
        match push(&mut self.producer, self.stash.clone()) {
            Ok(()) => Ok(()),
            Err(_) => Err(FlushError::RingFull(1)),
        }
    }
}

/// `frames` are the first frames that go through `ring`, in their order.
pub open spec fn goes_through(ring: int, frames: Seq<FrameView>) -> bool {
    forall|n: int| 0 <= n < frames.len() ==> #[trigger] frames[n] == nth_frame(ring, n)
}

/// What a [`RingSink`] ships, starting with a new ring, are the first frames that go through its
/// ring, in their order: every flush keeps that.
pub proof fn lemma_shipped_goes_through(s: NodeState, r: Result<(), FlushError>, t: NodeState)
    requires
        (ring_sink_flush_rule())(s, r, t),
    ensures
        t.memory == s.memory,
        goes_through(s.memory[1], s.shipped) ==> goes_through(t.memory[1], t.shipped),
{
}

/// What a [`RingSource`] receives, starting with a new ring, are the first frames that go through
/// its ring, in their order: every cycle keeps that.
pub proof fn lemma_received_goes_through(s: NodeState, io: Exchange, t: NodeState)
    requires
        (ring_source_rule())(s, io, t),
    ensures
        t.memory == s.memory,
        goes_through(s.memory[0], received(s.asked)) ==> goes_through(
            t.memory[0],
            received(t.asked),
        ),
{
    if io.outs.len() > 0 {
        assert(t.asked.drop_last() =~= s.asked);
    }
}

/// Frames come out of a ring in the order in which they were put in, bit for bit, each once: what
/// was received agrees with what was shipped as far as both reach.
pub proof fn lemma_ring_keeps_order(
    ring: int,
    shipped: Seq<FrameView>,
    asked: Seq<Option<FrameView>>,
    n: int,
)
    requires
        0 <= n < shipped.len(),
        n < received(asked).len(),
    ensures
        goes_through(ring, shipped) && goes_through(ring, received(asked)) ==> received(asked)[n]
            == shipped[n],
{
}

/// A full ring refuses: once as many frames were shipped as the ring has room for, a flush fails if
/// the oldest of them is never taken out. It reports one dropped frame; the sink goes on holding its
/// frame, and nothing was shipped.
pub proof fn lemma_full_ring_refuses(s: NodeState, r: Result<(), FlushError>, t: NodeState)
    requires
        (ring_sink_flush_rule())(s, r, t),
        s.shipped.len() >= s.memory[0],
    ensures
        !taken_out(s.memory[1], s.shipped.len() - s.memory[0]) ==> r == Err::<(), FlushError>(
            FlushError::RingFull(1),
        ) && t == s,
{
}

/// A frame that a flush shipped is what the reader of the ring gets when its turn comes, bit for bit,
/// unless the reader asks before the flush.
pub proof fn lemma_flushed_frame_arrives(
    s: NodeState,
    t: NodeState,
    asked: Seq<Option<FrameView>>,
    popped: Option<FrameView>,
)
    requires
        (ring_sink_flush_rule())(s, Ok(()), t),
        received(asked).len() == s.shipped.len(),
    ensures
        may_pop(s.memory[1], asked, popped) && !asked_early(
            s.memory[1],
            s.shipped.len() as int,
        ) ==> popped == Some(s.held[0]),
        t.held == s.held,
{
}

/// A ring source asks its ring for one frame in every cycle in which it has an output frame, and for
/// none otherwise. What it gets is the frame that follows those that it got before; it puts it out
/// and keeps it, each as far as there is room. If it gets none, it asked before that frame was put
/// in; it puts out again what it keeps, and goes on keeping it. It touches no other output frame
/// and not the context.
pub proof fn lemma_source_asks_once_per_cycle(s: NodeState, io: Exchange, t: NodeState)
    requires
        (ring_source_rule())(s, io, t),
        s.held.len() == 1,
        s.memory.len() == 1,
    ensures
        io.ctx_after == io.ctx,
        io.outs_after.len() == io.outs.len(),
        forall|i: int| 1 <= i < io.outs.len() ==> #[trigger] io.outs_after[i] == io.outs[i],
        t.shipped == s.shipped,
        t.memory == s.memory,
        t.held.len() == 1,
        io.outs.len() == 0 ==> t.asked == s.asked && t.held == s.held,
        io.outs.len() > 0 ==> {
            &&& t.asked.len() == s.asked.len() + 1
            &&& forall|i: int| 0 <= i < s.asked.len() ==> #[trigger] t.asked[i] == s.asked[i]
            &&& t.asked[s.asked.len() as int] matches Some(frame) ==> {
                &&& frame == nth_frame(s.memory[0], received(s.asked).len() as int)
                &&& crate::meaning::took_over(io.outs[0], frame, io.outs_after[0])
                &&& crate::meaning::took_over(s.held[0], frame, t.held[0])
            }
            &&& t.asked[s.asked.len() as int] is None ==> {
                &&& asked_early(s.memory[0], received(s.asked).len() as int)
                &&& crate::meaning::took_over(io.outs[0], s.held[0], io.outs_after[0])
                &&& t.held == s.held
            }
        },
{
    if io.outs.len() > 0 {
        assert(t.asked[s.asked.len() as int] == t.asked.last());
        assert(t.held =~= seq![t.held[0]]);
        if t.asked.last() is None {
            assert(t.held =~= s.held);
        }
    }
}

/// What was received are the frames among what was asked for, in their order.
pub proof fn lemma_received_counts_frames(asked: Seq<Option<FrameView>>, frame: FrameView)
    ensures
        received(Seq::empty()).len() == 0,
        received(asked.push(None)) == received(asked),
        received(asked.push(Some(frame))) == received(asked).push(frame),
{
    assert(asked.push(None).drop_last() =~= asked);
    assert(asked.push(Some(frame)).drop_last() =~= asked);
}

/// What a source puts out and keeps, given what it popped: the frame, or the last one again.
pub proof fn lemma_source_puts_out_what_it_popped(
    last: FrameView,
    popped: Option<FrameView>,
    outs: Seq<FrameView>,
)
    requires
        outs.len() > 0,
    ensures
        ({
            let (kept, after) = sourced(last, popped, outs);
            &&& after.len() == outs.len()
            &&& forall|i: int| 1 <= i < outs.len() ==> #[trigger] after[i] == outs[i]
            &&& popped matches Some(frame) ==> crate::meaning::took_over(outs[0], frame, after[0])
            &&& popped matches Some(frame) ==> crate::meaning::took_over(last, frame, kept)
            &&& popped is None ==> crate::meaning::took_over(outs[0], last, after[0])
            &&& popped is None ==> kept == last
        }),
{
}

/// In a cycle, a ring sink copies its first input into the frame that it holds, as far as there is
/// room, and does nothing else; without an input it does nothing at all.
pub proof fn lemma_sink_stashes_its_input(s: NodeState, io: Exchange, t: NodeState)
    requires
        (ring_sink_rule())(s, io, t),
        s.held.len() == 1,
    ensures
        io.ctx_after == io.ctx,
        io.outs_after == io.outs,
        t.asked == s.asked,
        t.shipped == s.shipped,
        t.memory == s.memory,
        t.held.len() == 1,
        io.ins.len() > 0 ==> crate::meaning::took_over(s.held[0], io.ins[0], t.held[0]),
        io.ins.len() == 0 ==> t.held == s.held,
{
}

/// A flush ships the frame that a ring sink holds, once, or reports that one frame was dropped; it
/// goes on holding the frame either way. It can fail only if as many frames were shipped as the
/// ring has room for and the oldest of those is still there, and succeed then only if that one is
/// taken out.
pub proof fn lemma_flush_ships_the_stash_or_reports_it(
    s: NodeState,
    r: Result<(), FlushError>,
    t: NodeState,
)
    requires
        (ring_sink_flush_rule())(s, r, t),
        s.held.len() == 1,
        s.memory.len() == 2,
    ensures
        t.held == s.held,
        t.asked == s.asked,
        t.memory == s.memory,
        r is Ok ==> {
            &&& t.shipped.len() == s.shipped.len() + 1
            &&& t.shipped[s.shipped.len() as int] == s.held[0]
            &&& forall|i: int| 0 <= i < s.shipped.len() ==> #[trigger] t.shipped[i] == s.shipped[i]
            &&& nth_frame(s.memory[1], s.shipped.len() as int) == s.held[0]
            &&& s.shipped.len() >= s.memory[0] ==> taken_out(
                s.memory[1],
                s.shipped.len() - s.memory[0],
            )
        },
        r matches Err(e) ==> {
            &&& e == FlushError::RingFull(1)
            &&& t.shipped == s.shipped
            &&& s.shipped.len() >= s.memory[0]
            &&& fell_behind(s.memory[1], s.shipped.len() - s.memory[0])
        },
{
}

/// The model of a ring source says what the source is: no input port, one output port, the rule of a
/// source, the last frame, what its pops gave, and its ring. That of a ring sink says one input
/// port, no output port, the rules of a sink, the stash, what was pushed, and its ring with its
/// capacity.
pub proof fn lemma_models_say_what_the_nodes_are(source: RingSource, sink: RingSink)
    ensures
        source.model().inputs.len() == 0,
        source.model().outputs.len() == 1,
        source.model().outputs[0] == source.port(),
        source.model().process == ring_source_rule(),
        source.model().state.held.len() == 1,
        source.model().state.held[0] == source.last_frame(),
        source.model().state.asked == pops(source.ring()),
        source.model().state.memory.len() == 1,
        source.model().state.memory[0] == pops_from(source.ring()),
        sink.model().inputs.len() == 1,
        sink.model().inputs[0] == sink.port(),
        sink.model().outputs.len() == 0,
        sink.model().process == ring_sink_rule(),
        sink.model().flush == ring_sink_flush_rule(),
        sink.model().state.held.len() == 1,
        sink.model().state.held[0] == sink.stashed(),
        sink.model().state.shipped == frames_pushed(sink.ring()),
        sink.model().state.memory.len() == 2,
        sink.model().state.memory[0] == ring_capacity(sink.ring()),
        sink.model().state.memory[1] == pushes_into(sink.ring()),
{
}

} // verus!
