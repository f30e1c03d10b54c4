//! Planar audio frames and the two ways in which the engine writes into them:
//! a bounded copy and silence.

use vstd::prelude::*;

verus! {

/// The bit pattern of a silent sample, `0.0`.
pub const SILENT: u32 = 0;

/// A planar audio frame: all samples of channel 0, then all samples of channel 1, and so on.
///
/// A sample is held as the bit pattern of its 32-bit float. The engine moves samples and silences
/// them; it never computes with them, so the pattern is all it needs.
#[derive(Debug, PartialEq, Eq)]
pub struct AudioFrame {
    /// Number of channels.
    pub channels: u16,
    /// Sample rate in Hz.
    pub sample_rate: u32,
    /// Planar sample buffer, one bit pattern per sample.
    pub samples: Vec<u32>,
}

/// The contents of an [`AudioFrame`].
#[verifier::ext_equal]
pub struct FrameView {
    pub channels: u16,
    pub sample_rate: u32,
    pub samples: Seq<u32>,
}

impl View for AudioFrame {
    type V = FrameView;

    open spec fn view(&self) -> FrameView {
        FrameView {
            channels: self.channels,
            sample_rate: self.sample_rate,
            samples: self.samples@,
        }
    }
}

/// The contents of a list of frames.
pub open spec fn frame_views(frames: Seq<AudioFrame>) -> Seq<FrameView> {
    Seq::new(frames.len(), |i: int| frames[i]@)
}

/// A frame of `channels * num_frames` silent samples.
pub open spec fn silent_frame(channels: u16, num_frames: usize, sample_rate: u32) -> FrameView {
    FrameView {
        channels,
        sample_rate,
        samples: Seq::new((channels * num_frames) as nat, |i: int| SILENT),
    }
}

/// A buffer of `channels * num_frames` samples can exist: it has at most `isize::MAX` bytes.
pub open spec fn frame_fits(channels: u16, num_frames: usize) -> bool {
    channels * num_frames * 4 <= isize::MAX
}

/// What a frame `dst` becomes when `src` is copied into it: it takes over the channel count, the
/// sample rate and as many samples as both have room for, and keeps its length and the samples
/// beyond.
pub open spec fn copied_over(dst: FrameView, src: FrameView) -> FrameView {
    FrameView {
        channels: src.channels,
        sample_rate: src.sample_rate,
        samples: Seq::new(
            dst.samples.len(),
            |i: int|
                if i < src.samples.len() {
                    src.samples[i]
                } else {
                    dst.samples[i]
                },
        ),
    }
}

/// A frame that is copied into one of the same length is taken over whole.
pub proof fn lemma_copy_of_same_length(dst: FrameView, src: FrameView)
    requires
        dst.samples.len() == src.samples.len(),
    ensures
        copied_over(dst, src) == src,
{
    assert(copied_over(dst, src) =~= src);
}

/// What a frame becomes when it is silenced: every sample is silent, all else is kept.
pub open spec fn silenced(dst: FrameView) -> FrameView {
    FrameView { samples: Seq::new(dst.samples.len(), |i: int| SILENT), ..dst }
}

impl AudioFrame {
    /// Takes ownership of `samples`, assumed to be in planar layout.
    #[must_use]
    pub fn from_planar(channels: u16, sample_rate: u32, samples: Vec<u32>) -> (r: Self)
        ensures
            r@ == (FrameView { channels, sample_rate, samples: samples@ }),
    {
        AudioFrame { channels, sample_rate, samples }
    }

    /// Creates a frame of silence of the requested size.
    #[must_use]
    pub fn silence(channels: u16, num_frames: usize, sample_rate: u32) -> (r: Self)
        requires
            frame_fits(channels, num_frames),
        ensures
            r@ == silent_frame(channels, num_frames, sample_rate),
    {
        let len: usize = channels as usize * num_frames;
        let samples: Vec<u32> = vec![SILENT; len];
        let r = AudioFrame { channels, sample_rate, samples };
        assert(r@.samples =~= silent_frame(channels, num_frames, sample_rate).samples);
        r
    }

    /// Copies `src` into this frame without resizing it.
    pub fn copy_from(&mut self, src: &AudioFrame)
        ensures
            final(self)@ == copied_over(old(self)@, src@),
    {
        self.channels = src.channels;
        self.sample_rate = src.sample_rate;
        let ghost before = self.samples@;
        let n: usize = if src.samples.len() < self.samples.len() {
            src.samples.len()
        } else {
            self.samples.len()
        };
        let mut i: usize = 0;
        while i < n
            invariant
                i <= n,
                n <= src.samples@.len(),
                n <= self.samples@.len(),
                self.samples@.len() == before.len(),
                self.channels == src.channels,
                self.sample_rate == src.sample_rate,
                forall|k: int|
                    0 <= k < before.len() ==> #[trigger] self.samples@[k] == if k < i {
                        src.samples@[k]
                    } else {
                        before[k]
                    },
            decreases n - i,
        {
            self.samples[i] = src.samples[i];
            i = i + 1;
        }
        assert(self@.samples =~= copied_over(old(self)@, src@).samples);
    }

    /// Silences every sample.
    pub fn mute(&mut self)
        ensures
            final(self)@ == silenced(old(self)@),
    {
        let mut i: usize = 0;
        while i < self.samples.len()
            invariant
                i <= self.samples@.len(),
                self.samples@.len() == old(self).samples@.len(),
                self.channels == old(self).channels,
                self.sample_rate == old(self).sample_rate,
                forall|k: int| 0 <= k < i ==> #[trigger] self.samples@[k] == SILENT,
            decreases self.samples@.len() - i,
        {
            self.samples[i] = SILENT;
            i = i + 1;
        }
        assert(self@.samples =~= silenced(old(self)@).samples);
    }
}

impl Clone for AudioFrame {
    fn clone(&self) -> (r: Self)
        ensures
            r@ == self@,
    {
        let samples: Vec<u32> = self.samples.clone();
        assert(samples@ =~= self.samples@);
        AudioFrame { channels: self.channels, sample_rate: self.sample_rate, samples }
    }
}

/// A frame shows its channel count, its sample rate and all its samples, and a list of frames shows
/// each of them.
pub proof fn lemma_frames_show_all(frame: AudioFrame, frames: Seq<AudioFrame>)
    ensures
        frame@.channels == frame.channels,
        frame@.sample_rate == frame.sample_rate,
        frame@.samples == frame.samples@,
        frame_views(frames).len() == frames.len(),
        forall|i: int| 0 <= i < frames.len() ==> #[trigger] frame_views(frames)[i] == frames[i]@,
{
}

/// A copy takes over the channel count, the sample rate and the samples of the source, as far as the
/// frame has room for them; what it has room for beyond that stays, and its length does.
pub proof fn lemma_copy_takes_over_what_fits(dst: FrameView, src: FrameView, after: FrameView)
    requires
        after == copied_over(dst, src),
    ensures
        after.channels == src.channels,
        after.sample_rate == src.sample_rate,
        after.samples.len() == dst.samples.len(),
        forall|i: int|
            0 <= i < dst.samples.len() && i < src.samples.len() ==> #[trigger] after.samples[i]
                == src.samples[i],
        forall|i: int|
            src.samples.len() <= i < dst.samples.len() ==> #[trigger] after.samples[i]
                == dst.samples[i],
{
}

/// A frame that is silenced has zeros for samples, as many as before, and is the same otherwise. A
/// frame of silence has the requested channel count and sample rate, and as many zeros as the two
/// sizes multiplied.
pub proof fn lemma_silence_is_all_zeros(
    dst: FrameView,
    channels: u16,
    num_frames: usize,
    sample_rate: u32,
)
    ensures
        silenced(dst).channels == dst.channels,
        silenced(dst).sample_rate == dst.sample_rate,
        silenced(dst).samples.len() == dst.samples.len(),
        forall|i: int| 0 <= i < dst.samples.len() ==> #[trigger] silenced(dst).samples[i] == 0,
        silent_frame(channels, num_frames, sample_rate).channels == channels,
        silent_frame(channels, num_frames, sample_rate).sample_rate == sample_rate,
        silent_frame(channels, num_frames, sample_rate).samples.len() == channels * num_frames,
        forall|i: int|
            0 <= i < channels * num_frames ==> #[trigger] silent_frame(
                channels,
                num_frames,
                sample_rate,
            ).samples[i] == 0,
{
    assert(0 <= channels * num_frames) by (nonlinear_arith)
        requires
            0 <= channels,
            0 <= num_frames,
    ;
}

} // verus!
