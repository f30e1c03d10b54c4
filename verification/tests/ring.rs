use audio_graph_bsd::{
    new_ring, AudioFrame, AudioNode, FlushError, Flushable, PortDirection, ProcessContext, PushError,
    RingSink, RingSource, SampleFormat,
};

/// A frame of the given samples.
fn frame(channels: u16, sample_rate: u32, samples: &[f32]) -> AudioFrame {
    AudioFrame::from_planar(channels, sample_rate, samples.iter().map(|s| s.to_bits()).collect())
}

/// The samples of a frame.
fn floats(frame: &AudioFrame) -> Vec<f32> {
    frame.samples.iter().map(|&s| f32::from_bits(s)).collect()
}

fn approx_eq(a: f32, b: f32) -> bool {
    (a - b).abs() < 1e-6
}

#[test]
fn ring_source_outputs_one_port_and_no_inputs() {
    let (_producer, consumer) = rtrb::RingBuffer::<AudioFrame>::new(4);
    let src = RingSource::new(consumer, 1, 48_000, 8);
    assert_eq!(src.inputs().len(), 0);
    assert_eq!(src.outputs().len(), 1);
    assert_eq!(src.outputs()[0].direction, PortDirection::Output);
    assert_eq!(src.outputs()[0].channels, 1);
    assert_eq!(src.outputs()[0].sample_format, SampleFormat::F32);
}

#[test]
fn ring_sink_inputs_one_port_and_no_outputs() {
    let (producer, _consumer) = rtrb::RingBuffer::<AudioFrame>::new(4);
    let sink = RingSink::new(producer, 2, 48_000, 8);
    assert_eq!(sink.inputs().len(), 1);
    assert_eq!(sink.outputs().len(), 0);
    assert_eq!(sink.inputs()[0].channels, 2);
    assert_eq!(sink.inputs()[0].direction, PortDirection::Input);
}

#[test]
fn ring_source_pops_and_outputs_frame() {
    let (mut producer, consumer) = rtrb::RingBuffer::<AudioFrame>::new(4);
    producer.push(frame(1, 48_000, &[0.5; 8])).unwrap();

    let mut src = RingSource::new(consumer, 1, 48_000, 8);
    let mut ctx = ProcessContext::new(8, 0, 48_000);
    let mut out = [AudioFrame::silence(1, 8, 48_000)];
    src.process(&mut ctx, &[], &mut out);
    assert!(floats(&out[0]).iter().all(|&s| approx_eq(s, 0.5)));
    assert!(floats(src.last()).iter().all(|&s| approx_eq(s, 0.5)));
}

#[test]
fn ring_source_repeats_last_when_empty() {
    let (_producer, consumer) = rtrb::RingBuffer::<AudioFrame>::new(4);
    let mut src = RingSource::new(consumer, 1, 48_000, 8);
    let mut ctx = ProcessContext::new(8, 0, 48_000);
    let mut out = [AudioFrame::silence(1, 8, 48_000)];
    for s in &mut out[0].samples {
        *s = 9.0f32.to_bits();
    }
    src.process(&mut ctx, &[], &mut out);
    assert!(floats(&out[0]).iter().all(|&s| approx_eq(s, 0.0)));
}

#[test]
fn ring_source_holds_after_underrun() {
    let (mut producer, consumer) = rtrb::RingBuffer::<AudioFrame>::new(4);
    producer.push(frame(1, 48_000, &[0.7; 4])).unwrap();
    let mut src = RingSource::new(consumer, 1, 48_000, 4);
    let mut ctx = ProcessContext::new(4, 0, 48_000);
    let mut out = [AudioFrame::silence(1, 4, 48_000)];
    src.process(&mut ctx, &[], &mut out);
    assert!(floats(&out[0]).iter().all(|&s| approx_eq(s, 0.7)));
    src.process(&mut ctx, &[], &mut out);
    assert!(floats(&out[0]).iter().all(|&s| approx_eq(s, 0.7)));
}

#[test]
fn ring_sink_stashes_input() {
    let (producer, _consumer) = rtrb::RingBuffer::<AudioFrame>::new(4);
    let mut sink = RingSink::new(producer, 1, 48_000, 8);
    let inp = [frame(1, 48_000, &[0.25; 8])];
    let mut ctx = ProcessContext::new(8, 0, 48_000);
    let mut no_out: [AudioFrame; 0] = [];
    sink.process(&mut ctx, &inp, &mut no_out);
    assert!(floats(sink.stash()).iter().all(|&s| approx_eq(s, 0.25)));
}

#[test]
fn ring_sink_flush_pushes_to_consumer() {
    let (producer, mut consumer) = rtrb::RingBuffer::<AudioFrame>::new(4);
    let mut sink = RingSink::new(producer, 1, 48_000, 4);
    let inp = [frame(1, 48_000, &[1.0; 4])];
    let mut ctx = ProcessContext::new(4, 0, 48_000);
    let mut no_out: [AudioFrame; 0] = [];
    sink.process(&mut ctx, &inp, &mut no_out);
    sink.flush().unwrap();
    let popped = consumer.pop().unwrap();
    assert!(floats(&popped).iter().all(|&s| approx_eq(s, 1.0)));
}

#[test]
fn ring_sink_flush_full_ring_errors() {
    let (producer, _consumer) = rtrb::RingBuffer::<AudioFrame>::new(1);
    let mut sink = RingSink::new(producer, 1, 48_000, 2);
    sink.flush().unwrap();
    assert!(sink.flush().is_err());
}

#[test]
fn ring_source_last_starts_silent() {
    let (_producer, consumer) = rtrb::RingBuffer::<AudioFrame>::new(2);
    let src = RingSource::new(consumer, 1, 48_000, 4);
    assert_eq!(src.last().channels, 1);
    assert_eq!(src.last().sample_rate, 48_000);
    assert!(floats(src.last()).iter().all(|&s| approx_eq(s, 0.0)));
}

#[test]
fn ring_sink_stash_starts_silent() {
    let (producer, _consumer) = rtrb::RingBuffer::<AudioFrame>::new(2);
    let sink = RingSink::new(producer, 2, 44_100, 4);
    assert_eq!(sink.stash().channels, 2);
    assert_eq!(sink.stash().sample_rate, 44_100);
    assert_eq!(sink.stash().samples.len(), 8);
    assert!(floats(sink.stash()).iter().all(|&s| approx_eq(s, 0.0)));
}

#[test]
fn full_ring_gives_the_stash_back_and_keeps_it() {
    let (producer, mut consumer) = rtrb::RingBuffer::<AudioFrame>::new(1);
    let mut sink = RingSink::new(producer, 1, 48_000, 2);
    let mut ctx = ProcessContext::new(2, 0, 48_000);
    sink.process(&mut ctx, &[frame(1, 48_000, &[0.5, 0.75])], &mut []);
    assert_eq!(RingSink::flush(&mut sink), Ok(()));
    sink.process(&mut ctx, &[frame(1, 48_000, &[0.125, 0.25])], &mut []);
    assert_eq!(
        RingSink::flush(&mut sink),
        Err(PushError::Full(frame(1, 48_000, &[0.125, 0.25])))
    );
    assert_eq!(Flushable::flush(&mut sink), Err(FlushError::RingFull(1)));
    assert_eq!(sink.stash(), &frame(1, 48_000, &[0.125, 0.25]));
    assert_eq!(consumer.pop(), Ok(frame(1, 48_000, &[0.5, 0.75])));
    assert_eq!(Flushable::flush(&mut sink), Ok(()));
    assert_eq!(consumer.pop(), Ok(frame(1, 48_000, &[0.125, 0.25])));
}

#[test]
fn shorter_and_longer_frames_are_copied_as_far_as_they_fit() {
    let (mut producer, consumer) = rtrb::RingBuffer::<AudioFrame>::new(4);
    let mut src = RingSource::new(consumer, 1, 48_000, 3);
    let mut ctx = ProcessContext::new(3, 0, 48_000);
    let mut out = [AudioFrame::silence(1, 2, 48_000)];
    producer.push(frame(2, 44_100, &[0.1, 0.2, 0.3, 0.4])).unwrap();
    src.process(&mut ctx, &[], &mut out);
    assert_eq!(out[0], frame(2, 44_100, &[0.1, 0.2]));
    assert_eq!(src.last(), &frame(2, 44_100, &[0.1, 0.2, 0.3]));
    producer.push(frame(1, 48_000, &[0.9])).unwrap();
    src.process(&mut ctx, &[], &mut out);
    assert_eq!(out[0], frame(1, 48_000, &[0.9, 0.2]));
    assert_eq!(src.last(), &frame(1, 48_000, &[0.9, 0.2, 0.3]));
}

#[test]
fn source_without_output_frame_leaves_the_ring_alone() {
    let (mut producer, consumer) = rtrb::RingBuffer::<AudioFrame>::new(1);
    producer.push(frame(1, 48_000, &[0.5])).unwrap();
    let mut src = RingSource::new(consumer, 1, 48_000, 1);
    let mut ctx = ProcessContext::new(1, 0, 48_000);
    src.process(&mut ctx, &[], &mut []);
    assert_eq!(src.consumer().slots(), 1);
    let mut out = [AudioFrame::silence(1, 1, 48_000)];
    src.process(&mut ctx, &[], &mut out);
    assert_eq!(out[0], frame(1, 48_000, &[0.5]));
    assert_eq!(src.consumer().slots(), 0);
}

#[test]
fn source_emits_what_it_is_given() {
    let (_producer, consumer) = rtrb::RingBuffer::<AudioFrame>::new(1);
    let mut src = RingSource::new(consumer, 1, 48_000, 2);
    let mut out = [AudioFrame::silence(1, 2, 48_000)];
    src.emit(Some(frame(1, 48_000, &[0.5, 0.25])), &mut out);
    assert_eq!(out[0], frame(1, 48_000, &[0.5, 0.25]));
    out[0].mute();
    src.emit(None, &mut out);
    assert_eq!(out[0], frame(1, 48_000, &[0.5, 0.25]));
}

#[test]
fn sink_without_input_keeps_its_stash() {
    let (producer, _consumer) = rtrb::RingBuffer::<AudioFrame>::new(1);
    let mut sink = RingSink::new(producer, 1, 48_000, 2);
    let mut ctx = ProcessContext::new(2, 0, 48_000);
    sink.process(&mut ctx, &[frame(1, 48_000, &[0.5, 0.75])], &mut []);
    sink.process(&mut ctx, &[], &mut []);
    assert_eq!(sink.stash(), &frame(1, 48_000, &[0.5, 0.75]));
    assert_eq!(sink.producer().slots(), 1);
}

#[test]
fn frames_arrive_in_the_order_in_which_they_were_pushed() {
    let (mut producer, consumer) = rtrb::RingBuffer::<AudioFrame>::new(8);
    let mut src = RingSource::new(consumer, 1, 48_000, 1);
    let mut ctx = ProcessContext::new(1, 0, 48_000);
    for k in 0..8u32 {
        producer.push(AudioFrame::from_planar(1, 48_000, vec![k])).unwrap();
    }
    for k in 0..8u32 {
        let mut out = [AudioFrame::silence(1, 1, 48_000)];
        src.process(&mut ctx, &[], &mut out);
        assert_eq!(out[0].samples, vec![k]);
    }
}

#[test]
fn new_ring_is_empty_and_has_the_capacity() {
    let (mut producer, mut consumer) = new_ring(2);
    assert_eq!(producer.buffer().capacity(), 2);
    assert!(consumer.pop().is_err());
    producer.push(frame(1, 48_000, &[0.5])).unwrap();
    producer.push(frame(1, 48_000, &[0.25])).unwrap();
    assert!(producer.push(frame(1, 48_000, &[0.125])).is_err());
    assert_eq!(consumer.pop(), Ok(frame(1, 48_000, &[0.5])));
}

#[test]
fn what_a_sink_ships_a_source_receives_in_order() {
    let (producer, consumer) = new_ring(3);
    let mut sink = RingSink::new(producer, 1, 48_000, 2);
    let mut src = RingSource::new(consumer, 1, 48_000, 2);
    let mut ctx = ProcessContext::new(2, 0, 48_000);
    let mut out = [AudioFrame::silence(1, 2, 48_000)];
    for round in 0..4u32 {
        let signals: Vec<AudioFrame> = (0..3u32)
            .map(|k| AudioFrame::from_planar(1, 48_000, vec![10 * round + k, 7]))
            .collect();
        for signal in &signals {
            sink.process(&mut ctx, &[signal.clone()], &mut []);
            assert_eq!(RingSink::flush(&mut sink), Ok(()));
        }
        for signal in &signals {
            src.process(&mut ctx, &[], &mut out);
            assert_eq!(&out[0], signal);
        }
        src.process(&mut ctx, &[], &mut out);
        assert_eq!(&out[0], &signals[2]);
    }
}

#[test]
fn second_flush_ships_the_stash_again() {
    let (producer, mut consumer) = new_ring(2);
    let mut sink = RingSink::new(producer, 1, 48_000, 2);
    let mut ctx = ProcessContext::new(2, 0, 48_000);
    sink.process(&mut ctx, &[frame(1, 48_000, &[0.5, -0.5])], &mut []);
    assert_eq!(RingSink::flush(&mut sink), Ok(()));
    assert_eq!(Flushable::flush(&mut sink), Ok(()));
    assert_eq!(consumer.pop(), Ok(frame(1, 48_000, &[0.5, -0.5])));
    assert_eq!(consumer.pop(), Ok(frame(1, 48_000, &[0.5, -0.5])));
}
