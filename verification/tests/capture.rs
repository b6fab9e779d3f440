use audio_cascade::capture::{gather_chunks, route_buffer, sample_words, stereo_pairs, BufferRoute};

#[test]
fn routes_by_size_and_channels() {
    assert_eq!(route_buffer(0, 2), BufferRoute::Discard);
    assert_eq!(route_buffer(6, 2), BufferRoute::Discard);
    assert_eq!(route_buffer(6, 1), BufferRoute::Discard);
    assert_eq!(route_buffer(8, 2), BufferRoute::Stereo);
    assert_eq!(route_buffer(8, 1), BufferRoute::Mono);
    assert_eq!(route_buffer(8, 0), BufferRoute::Discard);
    assert_eq!(route_buffer(8, 6), BufferRoute::Discard);
}

#[test]
fn words_are_little_endian() {
    let words = sample_words(&[0x01, 0x02, 0x03, 0x04, 0xff, 0x00, 0x00, 0x80]);
    assert_eq!(words, vec![0x0403_0201, 0x8000_00ff]);
}

#[test]
fn words_carry_float_samples() {
    let samples = [1.0f32, -0.5, 0.25];
    let mut bytes = Vec::new();
    for s in samples {
        bytes.extend_from_slice(&s.to_le_bytes());
    }
    let words = sample_words(&bytes);
    let back: Vec<f32> = words.into_iter().map(f32::from_bits).collect();
    assert_eq!(back, samples.to_vec());
}

#[test]
fn empty_bytes_give_no_word() {
    assert!(sample_words(&[]).is_empty());
}

#[test]
fn stereo_samples_pair_up() {
    let pairs = stereo_pairs(&[1, 2, 3, 4, 5, 6]);
    assert_eq!(pairs, vec![(1, 2), (3, 4), (5, 6)]);
    let mixed: Vec<f32> = stereo_pairs(&[0.5f32, 1.0, -1.0, 0.0])
        .into_iter()
        .map(|(l, r)| (l + r) * 0.5)
        .collect();
    assert_eq!(mixed, vec![0.75, -0.5]);
}

#[test]
fn gathering_keeps_arrival_order() {
    let got = gather_chunks(vec![vec![1, 2], vec![], vec![3], vec![4, 5]]);
    assert_eq!(got, Some(vec![1, 2, 3, 4, 5]));
}

#[test]
fn gathering_nothing_gives_none() {
    assert_eq!(gather_chunks::<u8>(vec![]), None);
    assert_eq!(gather_chunks::<u8>(vec![vec![], vec![]]), None);
}
