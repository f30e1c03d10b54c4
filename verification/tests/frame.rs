use audio_graph_bsd::AudioFrame;

#[test]
fn silence_has_the_requested_size() {
    let f = AudioFrame::silence(2, 3, 44_100);
    assert_eq!(f.channels, 2);
    assert_eq!(f.sample_rate, 44_100);
    assert_eq!(f.samples, vec![0.0f32.to_bits(); 6]);
    assert!(AudioFrame::silence(0, 1000, 48_000).samples.is_empty());
}

#[test]
fn copy_keeps_the_size_and_the_rest() {
    let mut f = AudioFrame::from_planar(1, 48_000, vec![1, 2, 3]);
    f.copy_from(&AudioFrame::from_planar(2, 44_100, vec![7, 8]));
    assert_eq!(f, AudioFrame::from_planar(2, 44_100, vec![7, 8, 3]));
    f.copy_from(&AudioFrame::from_planar(1, 48_000, vec![4, 5, 6, 9]));
    assert_eq!(f, AudioFrame::from_planar(1, 48_000, vec![4, 5, 6]));
}

#[test]
fn mute_silences_and_keeps_the_size() {
    let mut f = AudioFrame::from_planar(1, 48_000, vec![1, 2, 3]);
    f.mute();
    assert_eq!(f, AudioFrame::silence(1, 3, 48_000));
    assert_eq!(f.clone(), f);
}
