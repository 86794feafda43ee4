use mint::config::{DitherCorrelation, DitherStrength};
use mint::dither::mbit_plus::{self, ChannelState, MbitPlusStrength};
use mint::dither::multichannel::{per_channel_seed, MultiChannelDither};
use mint::dither::scene::{noise_shape, quantize_mbit_plus, select_mode, AdaptiveMode};
use mint::dither::shaper::{Grid, NoiseShaper};
use mint::dither::{ShapingCurve, TpdfDither};
use mint::level::Level;
use rand::rngs::StdRng;
use rand::{Rng, SeedableRng};

const UNIT: f64 = 1.0 / 9_007_199_254_740_992.0;

fn level(x: f64) -> Level {
    Level { bits: x.to_bits() }
}

/// The noise of one frame, in steps of the quantizer.
fn steps(dither: &mut MultiChannelDither) -> Vec<f64> {
    dither.sample_lsb_all().into_iter().map(|n| n as f64 * UNIT).collect()
}

#[test]
fn decorrelated_dither_differs_per_channel() {
    let mut dither_gen = MultiChannelDither::new(2, DitherCorrelation::Decorrelated, Some(42));
    let samples = steps(&mut dither_gen);

    assert_eq!(samples.len(), 2, "should return 2 samples");
    // Channels should differ (very low probability of match by chance).
    let diff = (samples[0] - samples[1]).abs();
    assert!(diff > 0.01, "decorrelated dither should produce different values per channel");
}

#[test]
fn correlated_dither_same_all_channels() {
    let mut dither_gen = MultiChannelDither::new(2, DitherCorrelation::Correlated, Some(42));
    let samples = steps(&mut dither_gen);

    assert_eq!(samples.len(), 2, "should return 2 samples");
    assert_eq!(samples[0], samples[1], "correlated dither should be identical across channels");
}

#[test]
fn mid_side_dither_differs_per_channel() {
    let mut dither_gen = MultiChannelDither::new(2, DitherCorrelation::MidSide, Some(42));
    let samples = steps(&mut dither_gen);

    assert_eq!(samples.len(), 2, "should return 2 samples");
    let diff = (samples[0] - samples[1]).abs();
    assert!(diff > 0.01, "mid-side dither should produce different L/R values");
}

#[test]
fn multichannel_decorrelated_all_independent() {
    let mut dither_gen = MultiChannelDither::new(6, DitherCorrelation::Decorrelated, Some(100));
    let samples = steps(&mut dither_gen);

    assert_eq!(samples.len(), 6, "should return 6 samples");
    // Check that not all channels are identical (highly unlikely if truly independent).
    let all_same = samples.iter().all(|&s| (s - samples[0]).abs() < 1e-10);
    assert!(!all_same, "independent channels should not all have identical dither");
}

#[test]
fn multichannel_correlated_all_identical() {
    let mut dither_gen = MultiChannelDither::new(6, DitherCorrelation::Correlated, Some(100));
    let samples = steps(&mut dither_gen);

    assert_eq!(samples.len(), 6, "should return 6 samples");
    // All should be identical.
    for i in 1..samples.len() {
        assert_eq!(samples[i], samples[0], "correlated dither must be identical across all channels");
    }
}

#[test]
fn multichannel_mid_side_falls_back_to_decorrelated() {
    let mut dither_gen = MultiChannelDither::new(6, DitherCorrelation::MidSide, Some(100));
    let samples = steps(&mut dither_gen);

    assert_eq!(samples.len(), 6, "should return 6 samples");
    // For >2 channels, should use decorrelated fallback.
    let all_same = samples.iter().all(|&s| (s - samples[0]).abs() < 1e-10);
    assert!(!all_same, "mid-side for >2 channels should fall back to decorrelated");
    let mut apart = MultiChannelDither::new(6, DitherCorrelation::Decorrelated, Some(100));
    assert_eq!(samples, steps(&mut apart));
}

#[test]
fn samples_in_lsb_range() {
    let mut dither_gen = MultiChannelDither::new(4, DitherCorrelation::Decorrelated, Some(42));
    for _ in 0..100 {
        let samples = steps(&mut dither_gen);
        for sample in samples {
            assert!(
                sample >= -1.0 && sample <= 1.0,
                "dither sample {sample} outside [-1, 1] range"
            );
        }
    }
}

#[test]
fn reproducible_with_seed() {
    let mut dither_gen1 = MultiChannelDither::new(2, DitherCorrelation::Decorrelated, Some(999));
    let mut dither_gen2 = MultiChannelDither::new(2, DitherCorrelation::Decorrelated, Some(999));

    for _ in 0..10 {
        let s1 = steps(&mut dither_gen1);
        let s2 = steps(&mut dither_gen2);
        assert_eq!(s1, s2, "same seed should produce identical sequences");
    }
}

#[test]
fn different_seeds_produce_different_sequences() {
    let mut dither_gen1 = MultiChannelDither::new(2, DitherCorrelation::Decorrelated, Some(111));
    let mut dither_gen2 = MultiChannelDither::new(2, DitherCorrelation::Decorrelated, Some(222));

    let s1 = steps(&mut dither_gen1);
    let s2 = steps(&mut dither_gen2);
    assert_ne!(s1, s2, "different seeds should produce different sequences");
}

#[test]
fn blanking_threshold_reasonable() {
    let s = ChannelState::new(5, 44_100, 0.0f64);
    assert_eq!(s.blanking_threshold, 2_205); // 50 ms @ 44.1 kHz.
}

#[test]
fn coeffs_are_defined_for_common_rates() {
    let lo = MbitPlusStrength::Low;
    assert!(!lo.coeffs_for_rate(44_100).is_empty());
    assert!(!lo.coeffs_for_rate(48_000).is_empty());
    assert!(!lo.coeffs_for_rate(88_200).is_empty());
    assert!(!lo.coeffs_for_rate(96_000).is_empty());
}

#[test]
fn noise_is_two_uniform_draws() {
    let mut rng = StdRng::seed_from_u64(77);
    let mut dither = TpdfDither::new(Some(77));
    for _ in 0..1000 {
        let a: f64 = rng.gen_range(-0.5_f64..0.5_f64);
        let b: f64 = rng.gen_range(-0.5_f64..0.5_f64);
        assert_eq!(dither.sample_lsb() as f64 * UNIT, a + b);
    }
}

#[test]
fn unseeded_noise_is_within_one_step() {
    let mut dither = TpdfDither::new(None);
    for _ in 0..100 {
        let x = dither.sample_lsb() as f64 * UNIT;
        assert!((-1.0..1.0).contains(&x));
    }
}

#[test]
fn channel_seeds_are_mixed_in() {
    assert_eq!(per_channel_seed(None, 3), None);
    assert_eq!(per_channel_seed(Some(42), 0), Some(42));
    assert_eq!(per_channel_seed(Some(0), 1), Some(0x9E37_79B9_7F4A_7C15));
    assert_eq!(
        per_channel_seed(Some(5), 2),
        Some(5 ^ 2u64.wrapping_mul(0x9E37_79B9_7F4A_7C15))
    );
}

#[test]
fn mid_and_side_are_the_sum_and_difference() {
    let mut both = MultiChannelDither::new(2, DitherCorrelation::MidSide, Some(8));
    let mut apart = MultiChannelDither::new(2, DitherCorrelation::Decorrelated, Some(8));
    for _ in 0..20 {
        let lr = both.sample_lsb_all();
        let ms = apart.sample_lsb_all();
        assert_eq!(lr[0] + lr[1], ms[0]);
        assert_eq!(lr[0] - lr[1], ms[1]);
    }
}

#[test]
fn strengths_follow_the_configuration() {
    assert_eq!(MbitPlusStrength::from_config(DitherStrength::Low), MbitPlusStrength::Low);
    assert_eq!(MbitPlusStrength::from_config(DitherStrength::Normal), MbitPlusStrength::Normal);
    assert_eq!(MbitPlusStrength::from_config(DitherStrength::High), MbitPlusStrength::High);
}

#[test]
fn curves_have_the_published_taps() {
    assert_eq!(ShapingCurve::Gentle.coeffs(), vec![20_000, -10_000]);
    assert_eq!(
        ShapingCurve::Psychoacoustic.coeffs(),
        vec![20_330, -21_650, 19_590, -15_900, 6_149]
    );
}

#[test]
fn errors_are_pushed_newest_first() {
    let mut state = ChannelState::new(3, 48_000, 0.0f64);
    state.push_error(1.0);
    state.push_error(2.0);
    assert_eq!(state.error_hist, vec![2.0, 1.0, 0.0]);
    assert!(!state.should_blank(level(0.0)));
    state.reset(0.0);
    assert_eq!(state.error_hist, vec![0.0, 0.0, 0.0]);
    assert_eq!(state.blanking_count, 1);
}

#[test]
fn quiet_channels_blank_after_the_threshold() {
    let mut state = ChannelState::new(2, 1_000, 0.0f64);
    assert_eq!(state.blanking_threshold, 50);
    let blanked: Vec<bool> = (0..60).map(|_| state.should_blank(level(0.0))).collect();
    assert_eq!(blanked.iter().position(|&b| b), Some(50));
    assert!(!state.should_blank(level(0.5)));
    assert!(!state.should_blank(level(0.0)));
}

#[test]
fn the_shaper_feeds_its_errors_back() {
    // Integer samples in steps of one: no noise is heard, since `noisy` drops it.
    let grid = Grid { max: 10, lo: -10, hi: 10 };
    let mut shaper: NoiseShaper<i64> = NoiseShaper::new(ShapingCurve::Gentle, Some(1), 0);
    let aim = |x: i64, taps: &Vec<i32>, hist: &Vec<i64>, _max: i32| {
        x - taps.iter().zip(hist).map(|(t, h)| *t as i64 / 10_000 * h).sum::<i64>()
    };
    let noisy = |u: i64, _n: i64| level(u as f64 + 1.0);
    let miss = |y: i32, u: i64| y as i64 - u;
    let codes: Vec<i32> = [0, 0, 0]
        .iter()
        .map(|&x| shaper.quantize(x, grid, &aim, &noisy, &miss))
        .collect();
    // Every code misses by one; the feedback is 2 e[n-1] - e[n-2].
    assert_eq!(codes, vec![1, -1, 0]);
}

#[test]
fn scenes_choose_a_mode() {
    assert_eq!(select_mode(level(-5.0), level(25.0)), AdaptiveMode::Transparent);
    assert_eq!(select_mode(level(-5.0), level(20.0)), AdaptiveMode::Aggressive);
    assert_eq!(select_mode(level(-8.0), level(3.0)), AdaptiveMode::Balanced);
    assert_eq!(select_mode(level(f64::NAN), level(f64::NAN)), AdaptiveMode::Balanced);
    assert_eq!(noise_shape(12_000, AdaptiveMode::Balanced), 180);
    assert_eq!(noise_shape(120, AdaptiveMode::Balanced), 60);
    assert_eq!(noise_shape(450, AdaptiveMode::Balanced), 100);
    assert_eq!(noise_shape(12_000, AdaptiveMode::Aggressive), 250);
    assert_eq!(noise_shape(120, AdaptiveMode::Aggressive), 120);
    assert_eq!(noise_shape(120, AdaptiveMode::Transparent), 30);
}

#[test]
fn scene_quantizer_runs_frame_by_frame() {
    // The state counts the frames; the scene is the sum of the frame; every code is the sample
    // plus the count plus the scene, and the noise is left out.
    let channels = vec![vec![1i64, 2, 3], vec![10, 20, 30]];
    let grid = Grid { max: 1, lo: -1000, hi: 60 };
    let codes = quantize_mbit_plus(
        &channels,
        3,
        0i64,
        Some(4),
        grid,
        &|states: &Vec<i64>, frame: &Vec<i64>| {
            let next: Vec<i64> = states.iter().map(|s| s + 1).collect();
            (next, frame.iter().sum::<i64>())
        },
        &|state: &i64, scene: &i64, x: i64, _max: i32| x + state + scene,
        &|u: i64, _scene: &i64, _base: i64, side: Option<i64>| {
            level(u as f64 + if side.is_some() { 100.0 } else { 0.0 } - 100.0)
        },
        &|state: &i64, _scene: &i64, _y: i32, _u: i64| *state,
    );
    assert_eq!(codes[0], vec![1 + 1 + 11 - 100, 2 + 2 + 22 - 100, 3 + 3 + 33 - 100]);
    assert_eq!(codes[1], vec![10 + 1 + 11, 20 + 2 + 22, 60]);
}

/// The codes of the MBIT+ quantizer on the 16-bit grid.
fn mbit_codes(channels: &Vec<Vec<f64>>, correlation: DitherCorrelation, seed: u64) -> Vec<Vec<i32>> {
    let aim = |x: f64, taps: &Vec<i32>, hist: &Vec<f64>, max: i32| {
        let fb: f64 = taps.iter().zip(hist).map(|(t, h)| *t as f64 / 10_000.0 * h).sum();
        x.clamp(-1.0, 1.0) * max as f64 - fb
    };
    mbit_plus::quantize(
        channels,
        channels[0].len(),
        44_100,
        MbitPlusStrength::Normal,
        correlation,
        Some(seed),
        0.0,
        Grid { max: 32_767, lo: -32_767, hi: 32_767 },
        &level,
        &aim,
        &|u: f64, n: i64| level(u + n as f64 * UNIT),
        &|y: i32, u: f64| y as f64 - u,
    )
}

#[test]
fn a_quiet_stretch_is_blanked_for_as_long_as_it_lasts() {
    let mut signal = vec![1.0e-6; 4410];
    let codes = mbit_codes(&vec![signal.clone()], DitherCorrelation::Decorrelated, 1);
    assert!(codes[0][..2205].iter().any(|&y| y != 0));
    assert!(codes[0][2205..].iter().all(|&y| y == 0));

    // Digital silence counts as quiet, and a loud sample ends the stretch.
    for x in &mut signal[1000..1500] {
        *x = 0.0;
    }
    signal[3000] = 0.5;
    let codes = mbit_codes(&vec![signal], DitherCorrelation::Decorrelated, 1);
    assert!(codes[0][1000..1500].iter().all(|&y| y == 0));
    assert!(codes[0][2205..3000].iter().all(|&y| y == 0));
    assert!(codes[0][3000] != 0);
    assert!(codes[0][3001..4410].iter().any(|&y| y != 0));
}

#[test]
fn a_channel_does_not_depend_on_the_others() {
    let right: Vec<f64> = (0..3000).map(|i| 0.3 * (i as f64 * 0.05).sin()).collect();
    let lefts = [
        vec![0.0; 3000],
        vec![1.0e-6; 3000],
        (0..3000).map(|i| 0.7 * (i as f64 * 0.11).cos()).collect::<Vec<f64>>(),
    ];
    for correlation in
        [DitherCorrelation::Decorrelated, DitherCorrelation::Correlated, DitherCorrelation::MidSide]
    {
        let codes: Vec<Vec<i32>> = lefts
            .iter()
            .map(|left| mbit_codes(&vec![left.clone(), right.clone()], correlation, 9)[1].clone())
            .collect();
        assert_eq!(codes[0], codes[1]);
        assert_eq!(codes[0], codes[2]);
        // The noise is there: a rounded sine alone would repeat what other seeds give.
        let other = mbit_codes(&vec![lefts[0].clone(), right.clone()], correlation, 10);
        assert_ne!(codes[0], other[1]);
    }
}
