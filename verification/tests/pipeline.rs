use ffaa::analyzer::SpectrumAnalyzer;
use ffaa::bands::BandConfig;
use ffaa::{BLOCK_SIZE, SAMPLES_SIZE};
use phastft::planner::Direction;

fn hann(i: usize, n: f32) -> f32 {
    0.5 - 0.5 * f32::cos(std::f32::consts::TAU * (i as f32) / (n - 1.0))
}

/// The floating-point stages between a full window and the output values:
/// windowing, transform, magnitudes, band energies, compression.
fn analysis_pass(a: &SpectrumAnalyzer) -> Vec<f32> {
    let snapshot = a.history_snapshot();
    assert_eq!(snapshot.len(), SAMPLES_SIZE);
    let n = snapshot.len() as f32;
    let mut reals: Vec<f32> = snapshot
        .iter()
        .enumerate()
        .map(|(i, bits)| hann(i, n) * f32::from_bits(*bits))
        .collect();
    let mut imags = vec![0.0f32; SAMPLES_SIZE];
    phastft::fft_f32_dit(&mut reals, &mut imags, Direction::Forward);
    let magnitudes: Vec<f32> = reals
        .iter()
        .zip(imags.iter())
        .map(|(re, im)| 2.0 * (re.powi(2) + im.powi(2)).sqrt())
        .collect();
    a.band_table()
        .iter()
        .map(|&(start, end)| {
            let sum: f32 = magnitudes[start..end].iter().sum();
            (sum / (end - start) as f32).powf(0.35)
        })
        .collect()
}

fn feed_block(a: &mut SpectrumAnalyzer, samples: &[f32]) -> bool {
    assert_eq!(samples.len(), BLOCK_SIZE);
    let bits: Vec<u32> = samples.iter().map(|s| s.to_bits()).collect();
    a.append_block(&bits)
}

fn run_and_store(a: &mut SpectrumAnalyzer) -> Vec<f32> {
    let values = analysis_pass(a);
    a.write_output(values.iter().map(|v| v.to_bits()).collect());
    values
}

fn output_values(a: &SpectrumAnalyzer) -> Vec<f32> {
    a.output_snapshot().iter().map(|b| f32::from_bits(*b)).collect()
}

fn sine_block(f0: f32, rate: f32, start_index: usize) -> Vec<f32> {
    (0..BLOCK_SIZE)
        .map(|j| {
            let t = (start_index + j) as f32 / rate;
            (std::f32::consts::TAU * f0 * t).sin()
        })
        .collect()
}

#[test]
fn test_cold_start_gating() {
    let mut a = SpectrumAnalyzer::new(BandConfig::default_layout());
    let initial = output_values(&a);
    assert!(initial.iter().all(|v| *v == 0.0));
    let zeros = vec![0.0f32; BLOCK_SIZE];
    for _ in 0..31 {
        let ready = feed_block(&mut a, &zeros);
        assert!(!ready);
        assert_eq!(output_values(&a), initial);
    }
    // The 32nd block fills the window exactly: a full pass is due.
    assert!(feed_block(&mut a, &zeros));
    assert_eq!(a.history_len(), SAMPLES_SIZE);
}

#[test]
fn test_silence_gives_zero_output() {
    let mut a = SpectrumAnalyzer::new(BandConfig::default_layout());
    let zeros = vec![0.0f32; BLOCK_SIZE];
    let mut ready = false;
    for _ in 0..32 {
        ready = feed_block(&mut a, &zeros);
    }
    assert!(ready);
    let values = run_and_store(&mut a);
    assert_eq!(values.len(), 70);
    for v in &values {
        assert_eq!(*v, 0.0);
    }
    assert!(output_values(&a).iter().all(|v| *v == 0.0));
}

#[test]
fn test_magnitudes_nonnegative() {
    // A noisy, sign-alternating input still yields only non-negative band
    // values.
    let mut a = SpectrumAnalyzer::new(BandConfig::default_layout());
    let mut state = 0x12345678u32;
    for _ in 0..32 {
        let block: Vec<f32> = (0..BLOCK_SIZE)
            .map(|_| {
                state = state.wrapping_mul(1664525).wrapping_add(1013904223);
                (state as f32 / u32::MAX as f32) * 2.0 - 1.0
            })
            .collect();
        feed_block(&mut a, &block);
    }
    let values = run_and_store(&mut a);
    for v in &values {
        assert!(*v >= 0.0);
        assert!(v.is_finite());
    }
}

#[test]
fn test_pure_tone_band_localization() {
    // 468.75 Hz at 48 kHz falls exactly in bin 40 = 468.75 * 4096 / 48000.
    let f0 = 468.75f32;
    let rate = 48000usize;
    let mut a = SpectrumAnalyzer::new(BandConfig::default_layout());
    a.set_sample_rate(rate);
    let mut ready = false;
    for b in 0..32 {
        ready = feed_block(&mut a, &sine_block(f0, rate as f32, b * BLOCK_SIZE));
    }
    assert!(ready);
    let values = run_and_store(&mut a);
    let peak = values
        .iter()
        .enumerate()
        .max_by(|x, y| x.1.partial_cmp(y.1).unwrap())
        .unwrap()
        .0;
    let (start, end) = a.band_table()[peak];
    assert!(start <= 40 && 40 < end, "peak band ({start}, {end}) misses bin 40");
}

#[test]
fn test_sample_rate_change_moves_the_peak() {
    // The same 468.75 Hz tone sampled at 96 kHz falls in bin 20; after
    // set_sample_rate the freshly derived band table must localize it there.
    let f0 = 468.75f32;
    let mut a = SpectrumAnalyzer::new(BandConfig::default_layout());
    a.set_sample_rate(96000);
    for b in 0..32 {
        feed_block(&mut a, &sine_block(f0, 96000.0, b * BLOCK_SIZE));
    }
    let values = run_and_store(&mut a);
    let peak = values
        .iter()
        .enumerate()
        .max_by(|x, y| x.1.partial_cmp(y.1).unwrap())
        .unwrap()
        .0;
    let (start, end) = a.band_table()[peak];
    assert!(start <= 20 && 20 < end, "peak band ({start}, {end}) misses bin 20");
}
