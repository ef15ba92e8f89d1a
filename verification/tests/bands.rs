use ffaa::bands::{get_spectrum_bands, BandConfig};
use ffaa::HALF_SPECTRUM;

#[test]
fn test_bands() {
    let cfg = BandConfig::default_layout();
    let bands = get_spectrum_bands(&cfg, 48000);
    assert_eq!(bands.len(), 70);
    // Every band is non-empty and excludes the DC bin.
    for &(start, end) in &bands {
        assert!(start >= 1);
        assert!(end > start);
        assert!(end <= HALF_SPECTRUM);
    }
    // Ascending frequency order.
    for w in bands.windows(2) {
        assert!(w[0].0 <= w[1].0);
        assert!(w[0].1 <= w[1].1);
    }
    // The lowest edge: floor(70 * 4096 / 48000) = 5.
    assert_eq!(bands[0].0, 5);
    // The highest edge: floor(1200 * 4096 / 48000) = 102.
    assert_eq!(bands[69].1, 102);
}

#[test]
fn test_band_edges_shift_with_rate() {
    let cfg = BandConfig::default_layout();
    let at_48k = get_spectrum_bands(&cfg, 48000);
    let at_96k = get_spectrum_bands(&cfg, 96000);
    // Doubling the rate halves every bin index: floor(70 * 4096 / 96000) = 2,
    // floor(1200 * 4096 / 96000) = 51.
    assert_eq!(at_96k[0].0, 2);
    assert_eq!(at_96k[69].1, 51);
    assert_ne!(at_48k, at_96k);
}

#[test]
fn test_single_band_low_range() {
    // One band over 1..2 Hz: both edges round to bin 0, and the corrections
    // push the band to (1, 2).
    let cfg = BandConfig { bands_count: 1, min_freq: 1, max_freq: 2 };
    let bands = get_spectrum_bands(&cfg, 48000);
    assert_eq!(bands.len(), 1);
    assert_eq!(bands[0], (1, 2));
}

#[test]
fn test_rate_guard() {
    let cfg = BandConfig::default_layout();
    // The Nyquist frequency must not fall below the band ceiling.
    assert!(cfg.rate_ok(48000));
    assert!(cfg.rate_ok(2400));
    assert!(!cfg.rate_ok(2399));
    assert!(!cfg.rate_ok(0));
}
