use audio_cascade::bands::{band_edges, BandPlan};

#[test]
fn edges_are_clamped_and_swept() {
    let edges = band_edges(&[0, 0, 0, 5, 5, 100], 10);
    assert_eq!(edges, vec![0, 1, 2, 5, 6, 10]);
}

#[test]
fn increasing_edges_are_kept() {
    let edges = band_edges(&[1, 3, 7, 9], 9);
    assert_eq!(edges, vec![1, 3, 7, 9]);
}

#[test]
fn last_edge_clamped_to_nyquist() {
    // Every raw edge lands on bin 0 of a tiny spectrum: the sweep pushes the
    // edges past the Nyquist bin and only the last one is pulled back.
    let edges = band_edges(&[0, 0, 0, 0, 0], 2);
    assert_eq!(edges, vec![0, 1, 2, 3, 2]);
}

#[test]
fn single_edge_for_zero_bands() {
    assert_eq!(band_edges(&[7], 4), vec![4]);
    assert_eq!(band_edges(&[3], 4), vec![3]);
}

#[test]
fn sweeping_twice_changes_nothing() {
    let raw = [0usize, 0, 3, 3, 2, 40, 41, 41];
    let once = band_edges(&raw, 40);
    let twice = band_edges(&once, 40);
    assert_eq!(once, twice);
    assert_eq!(once, vec![0, 1, 3, 4, 5, 40, 41, 40]);
}

#[test]
fn edges_below_last_strictly_increase() {
    let raw = [5usize, 5, 5, 5, 5, 5, 6, 6, 6, 200];
    let edges = band_edges(&raw, 128);
    for i in 0..edges.len() - 2 {
        assert!(edges[i] < edges[i + 1]);
    }
    assert!(*edges.last().unwrap() <= 128);
}

#[test]
fn plan_reports_band_ranges() {
    let plan = BandPlan::new(8, 4, &[0, 0, 0, 0, 0]);
    assert_eq!(plan.fft_size(), 8);
    assert_eq!(plan.num_bands(), 4);
    assert_eq!(plan.nyquist_bins(), 4);
    assert_eq!(plan.spectrum_len(), 5);
    assert_eq!(plan.edges(), &[0, 1, 2, 3, 4]);
    assert_eq!(plan.band_range(0), Some((0, 1)));
    assert_eq!(plan.band_range(3), Some((3, 4)));
}

#[test]
fn empty_last_band_has_no_range() {
    let plan = BandPlan::new(4, 4, &[0, 0, 0, 0, 0]);
    assert_eq!(plan.edges(), &[0, 1, 2, 3, 2]);
    assert_eq!(plan.band_range(2), Some((2, 3)));
    assert_eq!(plan.band_range(3), None);
}

/// The logarithmic placement of the display's 50 bands from 30 Hz to the
/// Nyquist frequency, for a 4096-sample FFT at 48 kHz.
fn log_edges(fft_size: usize, num_bands: usize, sample_rate: u32) -> Vec<usize> {
    let nyquist_bins = fft_size / 2;
    let nyquist_hz = sample_rate as f32 / 2.0;
    let min_freq = 30.0f32;
    (0..=num_bands)
        .map(|i| {
            let ratio = i as f32 / num_bands as f32;
            let freq_hz = min_freq * (nyquist_hz / min_freq).powf(ratio);
            (freq_hz / nyquist_hz * nyquist_bins as f32) as usize
        })
        .collect()
}

#[test]
fn display_plan_covers_the_spectrum() {
    let raw = log_edges(4096, 50, 48000);
    let plan = BandPlan::new(4096, 50, &raw);
    let edges = plan.edges();
    assert_eq!(edges.len(), 51);
    assert_eq!(edges[0], 2);
    assert!(edges[50] >= 2040 && edges[50] <= 2048);
    for i in 0..50 {
        let (start, end) = plan.band_range(i).unwrap();
        assert!(start < end && end <= 2048);
    }
}

#[test]
fn crowded_top_bands_reach_past_nyquist() {
    // Two raw edges on the Nyquist bin push the edge before the last past it,
    // so a band would read past the positive-frequency magnitudes.
    let plan = BandPlan::new(16, 3, &[1, 3, 8, 8]);
    assert_eq!(plan.edges(), &[1, 3, 8, 8]);
    let plan = BandPlan::new(16, 4, &[1, 3, 8, 8, 8]);
    assert_eq!(plan.edges(), &[1, 3, 8, 9, 8]);
    assert_eq!(plan.band_range(2), Some((8, 9)));
    assert!(plan.band_range(2).unwrap().1 > plan.nyquist_bins());
    assert_eq!(plan.band_range(3), None);
}
