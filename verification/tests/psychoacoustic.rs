use std::f64::consts::PI;

use mint::dither::adaptive_mbit::{design_order, AdaptiveShaper};
use mint::dither::psychoacoustic::{
    bark_to_bins, bark_tonality, bin_to_bark_band, masking_threshold, power_to_bark_bands,
    spreading_function, PsychoacousticAnalysis, BARK_UPPER, FRAME_SIZE, HOP_SIZE, NUM_BARK_BANDS,
};
use rustfft::num_complex::Complex;
use rustfft::FftPlanner;

fn db_to_linear(db: f64) -> f64 {
    10.0_f64.powf(db / 20.0)
}

fn hann_window(n: usize) -> Vec<f64> {
    (0..n).map(|i| 0.5 * (1.0 - (2.0 * PI * i as f64 / n as f64).cos())).collect()
}

fn build_ath(sample_rate: u32, num_bins: usize) -> Vec<f64> {
    let nyquist = sample_rate as f64 / 2.0;
    (0..num_bins)
        .map(|k| {
            let f = (k as f64 * nyquist / (num_bins - 1) as f64).max(20.0) / 1_000.0;
            let ath_spl = 3.64 * f.powf(-0.8) - 6.5 * (-(0.6 * (f - 3.3)).powi(2)).exp()
                + 1.0e-3 * f.powi(4);
            db_to_linear(ath_spl - 96.0)
        })
        .collect()
}

fn tone(bands: &Vec<f64>) -> f64 {
    let arith = bands.iter().sum::<f64>() / bands.len() as f64;
    if arith < 1.0e-30 {
        return 0.0;
    }
    let log_sum: f64 = bands.iter().map(|&p| p.max(1.0e-30).ln()).sum();
    let geom = (log_sum / bands.len() as f64).exp();
    let sfm_db = 10.0 * (geom / arith).max(1.0e-30).log10();
    (sfm_db / -60.0).clamp(0.0, 1.0)
}

fn spread_into(acc: f64, power: f64, dz: i64) -> f64 {
    let dz_s = dz as f64 + 0.474;
    let sf_db = 15.81 + 7.5 * dz_s - 17.5 * (1.0 + dz_s * dz_s).sqrt();
    acc + power * db_to_linear(sf_db)
}

fn offset(excitation: f64, tonality: f64) -> f64 {
    excitation * db_to_linear(-(tonality * 5.5 + (1.0 - tonality) * 6.5))
}

fn threshold_of_power(power: &Vec<f64>, sample_rate: u32, ath: &Vec<f64>) -> Vec<f64> {
    masking_threshold(
        power,
        sample_rate,
        ath,
        0.0,
        &|a: f64, b: f64| a + b,
        &|sum: f64, n: usize| sum / n as f64,
        &tone,
        &|p: f64| p < 1.0e-30,
        &spread_into,
        &offset,
        &|t: f64, a: f64| t.max(a),
    )
}

fn analyze(signal: &Vec<f64>, sample_rate: u32) -> PsychoacousticAnalysis<f64> {
    let num_bins = FRAME_SIZE / 2 + 1;
    let window = hann_window(FRAME_SIZE);
    let ath = build_ath(sample_rate, num_bins);
    let fft = FftPlanner::<f64>::new().plan_fft_forward(FRAME_SIZE);
    let threshold = |frame: &Vec<f64>| -> Vec<f64> {
        let mut spectrum: Vec<Complex<f64>> =
            frame.iter().zip(&window).map(|(s, w)| Complex::new(s * w, 0.0)).collect();
        fft.process(&mut spectrum);
        let power: Vec<f64> = (0..num_bins)
            .map(|k| {
                let fold = if k == 0 || k == FRAME_SIZE / 2 { 1.0 } else { 2.0 };
                let c = spectrum[k];
                (c.re * c.re + c.im * c.im) * fold / FRAME_SIZE as f64
            })
            .collect();
        threshold_of_power(&power, sample_rate, &ath)
    };
    PsychoacousticAnalysis::analyze(signal, sample_rate, 0.0, &threshold)
}

fn design_minimal_phase_fir(target_spectrum: &Vec<f64>, order: usize) -> Vec<f64> {
    let n_fft = (target_spectrum.len() - 1) * 2;
    let order = design_order(target_spectrum.len(), order);
    let mut log_s = vec![Complex::new(0.0, 0.0); n_fft];
    for (k, &m) in target_spectrum.iter().enumerate() {
        log_s[k] = Complex::new((m * m).max(1e-6).min(1e6).ln(), 0.0);
    }
    let mut planner = FftPlanner::<f64>::new();
    planner.plan_fft_inverse(n_fft).process(&mut log_s);
    let mut log_h = vec![Complex::new(0.0, 0.0); n_fft];
    log_h[0] = log_s[0] * Complex::new(2.0, 0.0);
    for n in 1..=(order / 2).min(n_fft / 2 - 1) {
        log_h[n] = log_s[n] * Complex::new(2.0, 0.0);
    }
    planner.plan_fft_forward(n_fft).process(&mut log_h);
    let mut h: Vec<Complex<f64>> = log_h
        .iter()
        .map(|c| Complex::new((c.re / n_fft as f64).exp().max(1e-10), 0.0))
        .collect();
    planner.plan_fft_inverse(n_fft).process(&mut h);
    let mut coeffs: Vec<f64> = h.iter().take(order).map(|c| c.re / n_fft as f64).collect();
    let largest = coeffs.iter().map(|c| c.abs()).fold(0.0, f64::max);
    if largest > 1.0 {
        let scale = 0.9 / (largest + 1e-10);
        for c in &mut coeffs {
            *c *= scale;
        }
    }
    coeffs
}

fn shaper_for(analysis: &PsychoacousticAnalysis<f64>, order: usize) -> AdaptiveShaper<f64> {
    AdaptiveShaper::from_analysis(analysis, order, &design_minimal_phase_fir)
}

fn coeffs(shaper: &AdaptiveShaper<f64>, n: usize) -> Vec<f64> {
    shaper.coeffs_for_sample(n, 0.0, &|a: f64, b: f64, place: usize| {
        let alpha = place as f64 / HOP_SIZE as f64;
        a * (1.0 - alpha) + b * alpha
    })
}

fn sine(freq_hz: f64, n: usize, sample_rate: u32) -> Vec<f64> {
    (0..n)
        .map(|i| (2.0 * PI * freq_hz * i as f64 / sample_rate as f64).sin())
        .collect()
}

fn flat_spectrum(n: usize) -> Vec<f64> {
    vec![0.5; n]
}

fn lowpass_spectrum(n: usize) -> Vec<f64> {
    (0..n)
        .map(|k| {
            let norm = (k as f64) / (n as f64);
            1.0 - 0.9 * norm.powi(2)
        })
        .collect()
}

fn dummy_analysis(thresholds: Vec<Vec<f64>>) -> PsychoacousticAnalysis<f64> {
    PsychoacousticAnalysis { thresholds, num_bins: 513, sample_rate: 44_100 }
}

fn bin_at(f: f64, sr: u32) -> usize {
    (f * (FRAME_SIZE / 2) as f64 / (sr as f64 / 2.0)).round() as usize
}

#[test]
fn analyze_sine_produces_expected_frame_count() {
    let sr = 44_100u32;
    let n = sr as usize; // 1 second
    let sig = sine(997.0, n, sr);
    let analysis = analyze(&sig, sr);

    let expected_frames = (n - FRAME_SIZE) / HOP_SIZE + 1;
    assert!(
        (analysis.num_frames() as isize - expected_frames as isize).abs() <= 2,
        "frame count off: got {}, expected ~{expected_frames}",
        analysis.num_frames()
    );
    assert_eq!(analysis.num_bins, FRAME_SIZE / 2 + 1);
}

#[test]
fn threshold_for_sample_clamps_to_last_frame() {
    let sig = vec![0.1f64; 2048];
    let a = analyze(&sig, 44_100);
    // Sample index past the end should return the last frame without panicking.
    let last = a.threshold_for_sample(usize::MAX);
    assert_eq!(last.len(), a.num_bins);
}

#[test]
fn sine_raises_masking_threshold_in_its_bark_band() {
    let sr = 44_100u32;
    // Loud 1 kHz sine: should raise the masking threshold in the 920-1080 Hz band.
    let loud_sine = sine(1_000.0, sr as usize, sr);
    let silence = vec![0.0f64; sr as usize];

    let a_loud = analyze(&loud_sine, sr);
    let a_silent = analyze(&silence, sr);

    // Compare in the middle of the signal.
    let mid = sr as usize / 2;
    let t_loud = a_loud.threshold_for_sample(mid);
    let t_silent = a_silent.threshold_for_sample(mid);

    // Bin near 1 kHz.
    let bin_1k = bin_at(1_000.0, sr);

    assert!(
        t_loud[bin_1k] > t_silent[bin_1k],
        "loud 1 kHz sine should raise the masking threshold at 1 kHz"
    );
}

#[test]
fn spreading_raises_threshold_in_neighboring_bark_bands() {
    let sr = 44_100u32;
    // 1 kHz tone: masking should spill into adjacent Bark bands.
    let sig = sine(1_000.0, sr as usize, sr);
    let analysis = analyze(&sig, sr);
    let mid = sr as usize / 2;
    let t = analysis.threshold_for_sample(mid);

    // Bins just above and below 1 kHz should also see an elevated threshold.
    let bin_900 = bin_at(900.0, sr);
    let bin_1200 = bin_at(1_200.0, sr);
    let bin_8k = bin_at(8_000.0, sr);

    let ath = build_ath(sr, analysis.num_bins);

    // Neighbours should be well above ATH due to spreading.
    assert!(
        t[bin_900] > ath[bin_900],
        "spreading should elevate threshold near 900 Hz above ATH"
    );
    assert!(
        t[bin_1200] > ath[bin_1200],
        "spreading should elevate threshold near 1.2 kHz above ATH"
    );
    // Far away (8 kHz) should be close to ATH: little masking.
    assert!(
        t[bin_8k] < t[bin_900] * 10.0,
        "masking should be much weaker far from the masker"
    );
}

#[test]
fn psychoacoustic_analysis_frame_count_matches_hop_size() {
    let sr = 44_100u32;
    let sig = sine(997.0, sr as usize, sr);
    let analysis = analyze(&sig, sr);

    let expected = (sig.len() - FRAME_SIZE) / HOP_SIZE + 1;
    assert!(
        (analysis.num_frames() as isize - expected as isize).abs() <= 2,
        "frame count should be ~{expected}, got {}",
        analysis.num_frames()
    );
    assert_eq!(
        analysis.num_bins, FRAME_SIZE / 2 + 1,
        "num_bins should equal FRAME_SIZE / 2 + 1"
    );
}

#[test]
fn psychoacoustic_analysis_loud_tone_raises_threshold() {
    let sr = 44_100u32;
    let loud = sine(1_000.0, sr as usize, sr); // 0 dBFS 1 kHz
    let silent = vec![0.0f64; sr as usize];

    let a_loud = analyze(&loud, sr);
    let a_silent = analyze(&silent, sr);

    // Sample in the middle of the signal to avoid transient onset effects.
    let t_loud = a_loud.threshold_for_sample(sr as usize / 2);
    let t_silent = a_silent.threshold_for_sample(sr as usize / 2);

    let bin_1k = bin_at(1_000.0, sr);
    assert!(
        t_loud[bin_1k] > t_silent[bin_1k],
        "loud 1 kHz tone should raise the masking threshold at 1 kHz"
    );
}

#[test]
fn psychoacoustic_analysis_spreading_elevates_adjacent_bark_bands() {
    let sr = 44_100u32;
    let sig = sine(1_000.0, sr as usize, sr);
    let silent = vec![0.0f64; sr as usize];

    let a_sig = analyze(&sig, sr);
    let a_sil = analyze(&silent, sr);

    let t_sig = a_sig.threshold_for_sample(sr as usize / 2);
    let t_sil = a_sil.threshold_for_sample(sr as usize / 2);

    // Bins within one Bark band of 1 kHz (900-1200 Hz) should see elevated thresholds.
    assert!(
        t_sig[bin_at(900.0, sr)] > t_sil[bin_at(900.0, sr)],
        "spreading should elevate threshold near 900 Hz"
    );
    assert!(
        t_sig[bin_at(1_200.0, sr)] > t_sil[bin_at(1_200.0, sr)],
        "spreading should elevate threshold near 1.2 kHz"
    );
}

#[test]
fn psychoacoustic_analysis_masking_rolls_off_with_bark_distance() {
    let sr = 44_100u32;
    let sig = sine(1_000.0, sr as usize, sr);
    let analysis = analyze(&sig, sr);

    let t = analysis.threshold_for_sample(sr as usize / 2);

    // Threshold near the masker (1 kHz) should be much higher than far away (8 kHz).
    assert!(
        t[bin_at(1_000.0, sr)] > t[bin_at(8_000.0, sr)] * 2.0,
        "masking should roll off with Bark distance from the 1 kHz masker"
    );
}

#[test]
fn psychoacoustic_analysis_all_thresholds_positive() {
    let sr = 44_100u32;
    let sig = sine(440.0, sr as usize / 4, sr);
    let analysis = analyze(&sig, sr);

    for (fi, frame) in analysis.thresholds.iter().enumerate() {
        for (bi, &t) in frame.iter().enumerate() {
            assert!(t > 0.0, "threshold must be > 0 everywhere (frame {fi}, bin {bi})");
        }
    }
}

#[test]
fn psychoacoustic_analysis_threshold_clamps_gracefully() {
    let sig = vec![0.1f64; 2048];
    let a = analyze(&sig, 44_100);
    let t = a.threshold_for_sample(usize::MAX);
    assert_eq!(t.len(), a.num_bins);
}

#[test]
fn minimal_phase_fir_has_correct_length() {
    let spectrum = flat_spectrum(513);
    let fir = design_minimal_phase_fir(&spectrum, 7);
    assert_eq!(fir.len(), 7, "FIR should have requested order");
}

#[test]
fn minimal_phase_fir_respects_max_order() {
    let spectrum = flat_spectrum(513);
    for target_order in [1, 5, 15, 100] {
        let fir = design_minimal_phase_fir(&spectrum, target_order);
        assert!(
            fir.len() <= target_order && fir.len() > 0,
            "FIR length {} should be at most {}",
            fir.len(),
            target_order
        );
    }
}

#[test]
fn adaptive_shaper_interpolates_smoothly() {
    // Construct a dummy analysis with two frames.
    let analysis = dummy_analysis(vec![flat_spectrum(513), lowpass_spectrum(513)]);
    let shaper = shaper_for(&analysis, 5);

    // Sample 0 (start of frame 0) should match frame 0's coefficients.
    let c0 = coeffs(&shaper, 0);
    let cf0 = &shaper.frame_coeffs()[0];
    for (i, &cv) in c0.iter().enumerate() {
        assert!((cv - cf0[i]).abs() < 1e-6, "sample 0 should match frame 0 coefficients");
    }

    // Mid-frame sample should be a blend.
    let mid_sample = HOP_SIZE / 2;
    let c_mid = coeffs(&shaper, mid_sample);
    let c_start = coeffs(&shaper, 0);
    let c_end = coeffs(&shaper, HOP_SIZE);
    for (i, &cv) in c_mid.iter().enumerate() {
        // Should be roughly between start and end.
        let min = c_start[i].min(c_end[i]);
        let max = c_start[i].max(c_end[i]);
        assert!(
            cv >= min - 1e-6 && cv <= max + 1e-6,
            "mid-frame coefficient should be interpolated"
        );
    }
}

#[test]
fn adaptive_shaper_from_analysis_produces_multiple_frames() {
    let analysis = dummy_analysis(vec![flat_spectrum(513); 3]);
    let shaper = shaper_for(&analysis, 7);
    assert_eq!(shaper.num_frames(), 3, "shaper should have one entry per analysis frame");
    assert_eq!(shaper.order(), 7, "FIR order should match the request");
}

#[test]
fn adaptive_shaper_clamps_out_of_bounds() {
    let analysis = dummy_analysis(vec![flat_spectrum(513); 2]);
    let shaper = shaper_for(&analysis, 5);

    // Requesting samples far past the end should not panic.
    let c_far = coeffs(&shaper, usize::MAX);
    assert_eq!(c_far.len(), 5, "out-of-bounds request should return last frame's coeffs");
}

#[test]
fn minimal_phase_fir_preserves_positivity() {
    // A valid spectrum should produce positive (or very small) FIR values on average.
    let spectrum = lowpass_spectrum(513);
    let fir = design_minimal_phase_fir(&spectrum, 9);

    // First coefficient should be the largest (typical for a lowpass shaper).
    assert!(fir[0] > 0.0, "minimal-phase FIR should have positive leading tap");
    // Total energy (L1 norm) should be positive.
    let energy: f64 = fir.iter().map(|&x| x.abs()).sum();
    assert!(energy > 0.0, "FIR should have nonzero energy");
}

#[test]
fn adaptive_shaper_from_analysis_has_correct_structure() {
    let sr = 44_100u32;
    let sig = sine(1_000.0, sr as usize / 2, sr);
    let analysis = analyze(&sig, sr);
    let shaper = shaper_for(&analysis, 7);

    assert_eq!(
        shaper.num_frames(),
        analysis.num_frames(),
        "shaper should have one entry per analysis frame"
    );
    assert_eq!(shaper.order(), 7, "FIR order should match the request");
}

#[test]
fn adaptive_shaper_coefficients_interpolate_smoothly() {
    let sr = 44_100u32;
    let sig = sine(1_000.0, sr as usize / 2, sr);
    let analysis = analyze(&sig, sr);
    let shaper = shaper_for(&analysis, 5);

    // Collect coefficients over one hop period. They should vary smoothly,
    // not jump discontinuously.
    let mut prev_coeffs = coeffs(&shaper, 0);
    let mut max_delta = 0.0f64;

    for sample in (0..HOP_SIZE).step_by(HOP_SIZE / 100) {
        let curr_coeffs = coeffs(&shaper, sample);
        for (i, &curr) in curr_coeffs.iter().enumerate() {
            let delta = (curr - prev_coeffs[i]).abs();
            max_delta = max_delta.max(delta);
        }
        prev_coeffs = curr_coeffs;
    }

    // The maximum change over the hop should be bounded (smooth transition).
    assert!(
        max_delta < 0.5,
        "coefficient changes should be smooth, got max delta {max_delta:.3}"
    );
}

#[test]
fn adaptive_shaper_frame_boundaries_exact() {
    let sr = 44_100u32;
    let sig = sine(1_000.0, sr as usize, sr);
    let analysis = analyze(&sig, sr);
    let shaper = shaper_for(&analysis, 5);

    // At the start of each frame (sample = k * HOP_SIZE), the shaper should
    // return exactly the frame's coefficients.
    for frame in 0..shaper.num_frames().min(3) {
        let sample = frame * HOP_SIZE;
        let c_shaper = coeffs(&shaper, sample);
        let c_frame = &shaper.frame_coeffs()[frame];
        for (i, &cs) in c_shaper.iter().enumerate() {
            assert!(
                (cs - c_frame[i]).abs() < 1e-10,
                "shaper({}) should match frame {} coeff {}",
                sample,
                frame,
                i
            );
        }
    }
}

#[test]
fn adaptive_shaper_coefficients_are_stable() {
    let sr = 44_100u32;
    let sig = sine(1_000.0, sr as usize / 2, sr);
    let analysis = analyze(&sig, sr);
    let shaper = shaper_for(&analysis, 9);

    for (frame_idx, frame_coeffs_vec) in shaper.frame_coeffs().iter().enumerate() {
        for (tap_idx, &coeff) in frame_coeffs_vec.iter().enumerate() {
            assert!(
                coeff.is_finite(),
                "frame {} tap {} must be finite, got {}",
                frame_idx,
                tap_idx,
                coeff
            );
            assert!(
                coeff.abs() < 100.0,
                "frame {} tap {} magnitude should stay bounded, got {}",
                frame_idx,
                tap_idx,
                coeff
            );
        }
    }
}

#[test]
fn adaptive_shaper_bounds_checking() {
    let sr = 44_100u32;
    let sig = sine(440.0, sr as usize / 4, sr);
    let analysis = analyze(&sig, sr);
    let shaper = shaper_for(&analysis, 7);

    // Very large sample indices should not panic or return garbage.
    let c_large = coeffs(&shaper, 1_000_000_000);
    assert_eq!(c_large.len(), 7, "should return a full coefficient vector");
    assert!(c_large.iter().all(|c| c.is_finite()), "all coefficients must be finite");
}

#[test]
fn frames_overlap_by_half_and_cover_the_signal() {
    let seen = |n: usize| {
        let signal: Vec<usize> = (1..=n).collect();
        let analysis = PsychoacousticAnalysis::analyze(&signal, 48_000, 0, &|frame: &Vec<usize>| {
            let mut row = vec![frame[0], frame[FRAME_SIZE - 1], frame.len()];
            row.resize(FRAME_SIZE / 2 + 1, 7);
            row
        });
        assert!(analysis.thresholds.iter().all(|row| row.len() == analysis.num_bins));
        let heads: Vec<Vec<usize>> =
            analysis.thresholds.iter().map(|row| row[0..3].to_vec()).collect();
        heads
    };
    assert_eq!(seen(0), vec![vec![0, 0, 1024]]);
    assert_eq!(seen(512), vec![vec![1, 0, 1024]]);
    assert_eq!(seen(513), vec![vec![1, 0, 1024], vec![513, 0, 1024]]);
    assert_eq!(
        seen(1536),
        vec![vec![1, 1024, 1024], vec![513, 1536, 1024], vec![1025, 0, 1024]]
    );
}

#[test]
fn bins_fall_into_the_bands_of_their_frequency() {
    // 48 kHz and 513 bins: 46.875 Hz per bin.
    assert_eq!(bin_to_bark_band(0, 48_000, 513), 0);
    assert_eq!(bin_to_bark_band(2, 48_000, 513), 0);
    assert_eq!(bin_to_bark_band(3, 48_000, 513), 1);
    assert_eq!(bin_to_bark_band(256, 48_000, 513), 22);
    assert_eq!(bin_to_bark_band(257, 48_000, 513), 23);
    assert_eq!(bin_to_bark_band(512, 48_000, 513), 23);
    assert_eq!(BARK_UPPER[22], 12_000);
    for k in 0..513 {
        let f = k as f64 * 24_000.0 / 512.0;
        let z = (0..24).find(|&z| f <= BARK_UPPER[z] as f64).unwrap_or(23);
        assert_eq!(bin_to_bark_band(k, 48_000, 513), z);
    }
}

#[test]
fn bands_gather_mean_power_and_spread_it() {
    let power = vec![1i64; 513];
    let bands = power_to_bark_bands(
        &power,
        48_000,
        513,
        0,
        &|a: i64, b: i64| a + b,
        &|sum: i64, n: usize| sum * 1000 + n as i64,
    );
    assert_eq!(bands.len(), NUM_BARK_BANDS);
    // Band 0 holds bins 0, 1 and 2.
    assert_eq!(bands[0], 3003);
    // Every bin is in one band.
    assert_eq!(bands.iter().map(|b| b % 1000).sum::<i64>(), 513);
    let heard = spreading_function(&vec![5i64, 0, 7], 0, &|p: i64| p == 0, &|acc, p, dz| {
        acc * 100 + p + dz
    });
    assert_eq!(heard, vec![505, 606, 707]);
    let windows = bark_tonality(&vec![1i64, 10, 100, 1000], &|w: &Vec<i64>| w.iter().sum());
    assert_eq!(windows, vec![11, 111, 1110, 1100]);
}

#[test]
fn design_orders_stay_within_the_spectrum() {
    assert_eq!(design_order(513, 7), 7);
    assert_eq!(design_order(513, 0), 1);
    assert_eq!(design_order(5, 100), 4);
    assert_eq!(design_order(1, 3), 1);
}

#[test]
fn shapers_without_frames_give_silence() {
    let analysis = dummy_analysis(Vec::new());
    let shaper = shaper_for(&analysis, 5);
    assert_eq!(shaper.num_frames(), 0);
    assert_eq!(shaper.order(), 0);
    assert_eq!(coeffs(&shaper, 3), vec![0.0; 9]);
}

#[test]
fn the_threshold_of_a_frame_is_made_step_by_step() {
    let power: Vec<f64> = (0..513).map(|k| 1.0 / (1.0 + k as f64)).collect();
    let ath = build_ath(48_000, 513);
    let bands = power_to_bark_bands(
        &power,
        48_000,
        513,
        0.0,
        &|a: f64, b: f64| a + b,
        &|sum: f64, n: usize| sum / n as f64,
    );
    let tonality = bark_tonality(&bands, &tone);
    let spread = spreading_function(&bands, 0.0, &|p: f64| p < 1.0e-30, &spread_into);
    let thresholds: Vec<f64> =
        (0..NUM_BARK_BANDS).map(|z| offset(spread[z], tonality[z])).collect();
    let bins = bark_to_bins(&thresholds, 48_000, 513, &ath, &|t: f64, a: f64| t.max(a));
    assert_eq!(threshold_of_power(&power, 48_000, &ath), bins);
    assert!(bins.iter().zip(&ath).any(|(b, a)| b > a));
}

#[test]
fn no_signal_lowers_a_threshold() {
    for rate in [44_100, 48_000, 88_200, 96_000] {
        let ath = build_ath(rate, 513);
        for signal in [sine(997.0, 5000, rate), vec![1.0e-9; 700], vec![0.5; 3000]] {
            let a = analyze(&signal, rate);
            let z = analyze(&vec![0.0; signal.len()], rate);
            assert_eq!(a.num_frames(), z.num_frames());
            for (loud, silent) in a.thresholds.iter().zip(&z.thresholds) {
                assert_eq!(silent, &ath);
                assert!(loud.iter().zip(silent).all(|(l, s)| l >= s && *s > 0.0));
            }
        }
    }
}
