use audio_cascade::framing::take_frames;

#[test]
fn frames_overlap_by_hop() {
    let mut buf: Vec<u32> = (0..10).collect();
    let frames = take_frames(&mut buf, 4, 2);
    assert_eq!(
        frames,
        vec![vec![0, 1, 2, 3], vec![2, 3, 4, 5], vec![4, 5, 6, 7], vec![6, 7, 8, 9]]
    );
    assert_eq!(buf, vec![8, 9]);
}

#[test]
fn short_buffer_yields_no_frame() {
    let mut buf: Vec<u32> = vec![1, 2, 3];
    let frames = take_frames(&mut buf, 4, 2);
    assert!(frames.is_empty());
    assert_eq!(buf, vec![1, 2, 3]);
}

#[test]
fn hop_equal_to_frame_has_no_overlap() {
    let mut buf: Vec<u8> = vec![1, 2, 3, 4, 5, 6, 7];
    let frames = take_frames(&mut buf, 3, 3);
    assert_eq!(frames, vec![vec![1, 2, 3], vec![4, 5, 6]]);
    assert_eq!(buf, vec![7]);
}

#[test]
fn feeding_in_pieces_matches_feeding_at_once() {
    let stream: Vec<u32> = (0..37).collect();
    let mut whole = stream.clone();
    let all_at_once = take_frames(&mut whole, 8, 4);

    let mut buf: Vec<u32> = Vec::new();
    let mut in_pieces: Vec<Vec<u32>> = Vec::new();
    for piece in stream.chunks(5) {
        buf.extend_from_slice(piece);
        in_pieces.extend(take_frames(&mut buf, 8, 4));
    }
    assert_eq!(in_pieces, all_at_once);
    assert_eq!(buf, whole);
    assert_eq!(all_at_once.len(), 8);
    assert_eq!(whole, vec![32, 33, 34, 35, 36]);
}

#[test]
fn display_frames_of_4096_with_half_overlap() {
    let mut buf: Vec<f32> = (0..10000).map(|i| i as f32).collect();
    let frames = take_frames(&mut buf, 4096, 2048);
    assert_eq!(frames.len(), 3);
    assert_eq!(frames[1][0], 2048.0);
    assert_eq!(frames[2][4095], 8191.0);
    assert_eq!(buf.len(), 10000 - 3 * 2048);
    assert_eq!(buf[0], 6144.0);
}

#[test]
fn leftover_is_shorter_than_a_frame() {
    for n in 0..40usize {
        let mut buf: Vec<usize> = (0..n).collect();
        let frames = take_frames(&mut buf, 6, 4);
        assert!(buf.len() < 6);
        let first_left = frames.len() * 4;
        assert_eq!(buf, (first_left..n).collect::<Vec<usize>>());
    }
}
