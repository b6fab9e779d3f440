use audio_cascade::renderer::SpectrumLayout;

fn pixel(frame: &[u8], width: usize, x: usize, y: usize) -> [u8; 4] {
    let i = (y * width + x) * 4;
    [frame[i], frame[i + 1], frame[i + 2], frame[i + 3]]
}

const BAR: [u8; 4] = [102, 255, 102, 255];
const CAP: [u8; 4] = [255, 255, 200, 255];
const BASE: [u8; 4] = [68, 68, 68, 255];
const BLACK: [u8; 4] = [0, 0, 0, 0];

#[test]
fn display_layout() {
    let l = SpectrumLayout::new(50, 800, 400).unwrap();
    assert_eq!(l.num_bands(), 50);
    assert_eq!(l.width(), 800);
    assert_eq!(l.height(), 400);
    // (740 - 4 * 51) / 50 = 10
    assert_eq!(l.bar_width(), 10);
    assert_eq!(l.graph_bottom(), 390);
    assert_eq!(l.graph_height(), 380);
}

#[test]
fn layouts_that_do_not_fit() {
    assert!(SpectrumLayout::new(0, 800, 400).is_none());
    assert!(SpectrumLayout::new(3, 59, 400).is_none());
    assert!(SpectrumLayout::new(3, 800, 19).is_none());
    // 4 * 12 = 48 > 100 - 60
    assert!(SpectrumLayout::new(11, 100, 100).is_none());
    assert!(SpectrumLayout::new(9, 100, 100).is_some());
    assert!(SpectrumLayout::new(usize::MAX, 800, 400).is_none());
    assert!(SpectrumLayout::new(1, 64, 20).is_none());
    assert!(SpectrumLayout::new(1, 68, 20).is_some());
}

#[test]
fn narrow_bars_are_two_pixels() {
    // (100 - 60 - 40) / 9 = 0, raised to 2
    let l = SpectrumLayout::new(9, 100, 100).unwrap();
    assert_eq!(l.bar_width(), 2);
}

#[test]
fn draws_bars_caps_and_baseline() {
    let (w, h) = (80usize, 40usize);
    let l = SpectrumLayout::new(2, w, h).unwrap();
    // graph width 20, gaps 12, bars (20 - 12) / 2 = 4 wide at x = 34 and 42.
    assert_eq!(l.bar_width(), 4);
    let mut frame = vec![9u8; w * h * 4];
    assert!(l.try_draw(&mut frame, &[5, 0], &[10, 100]));
    // graph bottom is row 30: bar 0 spans rows 25..30, columns 34..38.
    assert_eq!(pixel(&frame, w, 34, 29), BAR);
    assert_eq!(pixel(&frame, w, 37, 25), BAR);
    assert_eq!(pixel(&frame, w, 38, 29), BLACK);
    assert_eq!(pixel(&frame, w, 34, 24), BLACK);
    // cap 0 on rows 10 and 11.
    assert_eq!(pixel(&frame, w, 35, 10), CAP);
    assert_eq!(pixel(&frame, w, 35, 11), CAP);
    assert_eq!(pixel(&frame, w, 35, 12), BLACK);
    // cap 1 is pulled up to the graph's last row and is one pixel high.
    assert_eq!(pixel(&frame, w, 42, 29), CAP);
    assert_eq!(pixel(&frame, w, 42, 28), BLACK);
    // baseline on row 30, columns 30..50.
    assert_eq!(pixel(&frame, w, 30, 30), BASE);
    assert_eq!(pixel(&frame, w, 49, 30), BASE);
    assert_eq!(pixel(&frame, w, 50, 30), BLACK);
    assert_eq!(pixel(&frame, w, 29, 30), BLACK);
    // the rest is cleared.
    assert_eq!(pixel(&frame, w, 0, 0), BLACK);
    assert_eq!(pixel(&frame, w, 79, 39), BLACK);
}

#[test]
fn cap_over_bar() {
    let (w, h) = (80usize, 40usize);
    let l = SpectrumLayout::new(2, w, h).unwrap();
    let mut frame = vec![0u8; w * h * 4];
    assert!(l.try_draw(&mut frame, &[10, 0], &[22, 0]));
    assert_eq!(pixel(&frame, w, 36, 19), BLACK);
    assert_eq!(pixel(&frame, w, 36, 20), BAR);
    assert_eq!(pixel(&frame, w, 36, 21), BAR);
    assert_eq!(pixel(&frame, w, 36, 22), CAP);
    assert_eq!(pixel(&frame, w, 36, 23), CAP);
    assert_eq!(pixel(&frame, w, 36, 24), BAR);
}

#[test]
fn refused_draws_leave_frame_alone() {
    let (w, h) = (80usize, 40usize);
    let l = SpectrumLayout::new(2, w, h).unwrap();
    let mut frame = vec![7u8; w * h * 4];
    // bar taller than the graph's bottom row
    assert!(!l.try_draw(&mut frame, &[31, 0], &[0, 0]));
    // wrong number of bands
    assert!(!l.try_draw(&mut frame, &[1], &[0, 0]));
    // framebuffer too small
    // the baseline ends at pixel 30 * 80 + 50, so 4 * 2450 bytes are needed
    let mut small = vec![7u8; 4 * 2450 - 1];
    assert!(!l.try_draw(&mut small, &[1, 1], &[0, 0]));
    assert!(frame.iter().all(|&b| b == 7));
    assert!(small.iter().all(|&b| b == 7));
}

#[test]
fn full_height_bar_reaches_top() {
    let (w, h) = (80usize, 40usize);
    let l = SpectrumLayout::new(2, w, h).unwrap();
    let mut frame = vec![0u8; w * h * 4];
    assert!(l.try_draw(&mut frame, &[30, 0], &[0, 0]));
    assert_eq!(pixel(&frame, w, 37, 0), CAP);
    assert_eq!(pixel(&frame, w, 37, 2), BAR);
    assert_eq!(pixel(&frame, w, 37, 29), BAR);
}

#[test]
fn larger_frame_is_cleared_past_window() {
    let (w, h) = (80usize, 40usize);
    let l = SpectrumLayout::new(2, w, h).unwrap();
    let mut frame = vec![5u8; w * h * 4 + 16];
    assert!(l.try_draw(&mut frame, &[3, 3], &[0, 0]));
    assert!(frame[w * h * 4..].iter().all(|&b| b == 0));
}

#[test]
fn frame_just_long_enough_for_the_baseline() {
    let (w, h) = (80usize, 40usize);
    let l = SpectrumLayout::new(2, w, h).unwrap();
    let mut frame = vec![7u8; 4 * 2450];
    assert!(l.try_draw(&mut frame, &[30, 30], &[0, 0]));
    assert_eq!(pixel(&frame, w, 49, 30), BASE);
    assert_eq!(pixel(&frame, w, 45, 29), BAR);
    assert_eq!(pixel(&frame, w, 45, 0), CAP);
}

#[test]
fn narrow_bars_spread_past_the_graph() {
    // 9 bars of forced width 2, 6 pixels apart from column 34: the last one
    // spans columns 82..84 of a 100-pixel row, inside the window.
    let (w, h) = (100usize, 30usize);
    let l = SpectrumLayout::new(9, w, h).unwrap();
    let mut frame = vec![0u8; w * h * 4];
    let bars = [1usize; 9];
    let caps = [0usize; 9];
    assert!(l.try_draw(&mut frame, &bars, &caps));
    assert_eq!(pixel(&frame, w, 82, 19), BAR);
    assert_eq!(pixel(&frame, w, 83, 19), BAR);
    assert_eq!(pixel(&frame, w, 84, 19), BLACK);
}

#[test]
fn bars_past_the_right_edge_continue_on_the_next_row() {
    // 20 bars of forced width 2 from column 34, 6 pixels apart: the last one
    // starts at column 148 of a 144-pixel row, that is column 4 of the next.
    let (w, h) = (144usize, 30usize);
    let l = SpectrumLayout::new(20, w, h).unwrap();
    assert_eq!(l.bar_width(), 2);
    let mut frame = vec![0u8; w * h * 4];
    let mut bars = [0usize; 20];
    bars[19] = 1;
    let caps = [100usize; 20];
    assert!(l.try_draw(&mut frame, &bars, &caps));
    // cap (pulled up to row 19) over the one-pixel bar, shifted onto row 20
    assert_eq!(pixel(&frame, w, 4, 20), CAP);
    assert_eq!(pixel(&frame, w, 5, 20), CAP);
    assert_eq!(pixel(&frame, w, 6, 20), BLACK);
    assert_eq!(pixel(&frame, w, 30, 20), BASE);
}

#[test]
fn display_bars_stay_inside_the_graph() {
    let (w, h) = (800usize, 400usize);
    let l = SpectrumLayout::new(50, w, h).unwrap();
    let mut frame = vec![0u8; w * h * 4];
    let bars = [380usize; 50];
    let caps = [0usize; 50];
    assert!(l.try_draw(&mut frame, &bars, &caps));
    // bar i spans columns 34 + 14 i .. 44 + 14 i
    assert_eq!(pixel(&frame, w, 33, 389), BLACK);
    assert_eq!(pixel(&frame, w, 34, 389), BAR);
    assert_eq!(pixel(&frame, w, 43, 389), BAR);
    assert_eq!(pixel(&frame, w, 44, 389), BLACK);
    assert_eq!(pixel(&frame, w, 48, 389), BAR);
    assert_eq!(pixel(&frame, w, 729, 389), BAR);
    assert_eq!(pixel(&frame, w, 730, 389), BLACK);
    assert_eq!(pixel(&frame, w, 769, 389), BLACK);
    // bars of 380 pixels reach row 10, the graph's top
    assert_eq!(pixel(&frame, w, 34, 10), BAR);
    assert_eq!(pixel(&frame, w, 34, 9), BLACK);
    // baseline from column 30 to 769 on row 390
    assert_eq!(pixel(&frame, w, 30, 390), BASE);
    assert_eq!(pixel(&frame, w, 769, 390), BASE);
    assert_eq!(pixel(&frame, w, 770, 390), BLACK);
}
