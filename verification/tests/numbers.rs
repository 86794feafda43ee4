use mint::decimal::fixed;
use mint::level::Level;
use mint::{path, text};
use rand::rngs::StdRng;
use rand::{Rng, SeedableRng};

fn level(x: f64) -> Level {
    Level { bits: x.to_bits() }
}

fn number(l: Level) -> f64 {
    f64::from_bits(l.bits)
}

/// The same number, all numbers that are none counting as one.
fn same(a: f64, b: f64) -> bool {
    (a.is_nan() && b.is_nan()) || a.to_bits() == b.to_bits()
}

fn specials() -> Vec<f64> {
    vec![
        0.0,
        -0.0,
        1.0,
        -1.0,
        0.1,
        -0.3,
        f64::MIN_POSITIVE,
        -f64::MIN_POSITIVE,
        f64::from_bits(1),
        f64::from_bits(0x000F_FFFF_FFFF_FFFF),
        f64::MAX,
        f64::MIN,
        f64::INFINITY,
        f64::NEG_INFINITY,
        f64::NAN,
        1e300,
        -1e300,
        9_007_199_254_740_992.0,
        9_007_199_254_740_993.0,
        1.0 + f64::EPSILON,
        0.5 - f64::EPSILON,
    ]
}

#[test]
fn sums_and_differences_are_those_of_the_machine() {
    let check = |a: f64, b: f64| {
        assert!(same(number(level(a).plus(level(b))), a + b), "{a} + {b}");
        assert!(same(number(level(a).minus(level(b))), a - b), "{a} - {b}");
    };
    for a in specials() {
        for b in specials() {
            check(a, b);
        }
    }
    let mut rng = StdRng::seed_from_u64(3);
    for _ in 0..20_000 {
        check(f64::from_bits(rng.gen::<u64>()), f64::from_bits(rng.gen::<u64>()));
        let near: f64 = rng.gen_range(-100.0..100.0);
        check(near, rng.gen_range(-100.0..100.0));
        check(near, -near * (1.0 + rng.gen_range(-1e-15..1e-15)));
    }
}

#[test]
fn comparisons_are_those_of_the_machine() {
    for a in specials() {
        for b in specials() {
            assert_eq!(level(a).is_below(level(b)), a < b, "{a} < {b}");
            assert_eq!(level(a).is_at_most(level(b)), a <= b, "{a} <= {b}");
            if !a.is_nan() && !b.is_nan() && a != b {
                assert!(same(number(level(a).min(level(b))), a.min(b)));
                assert!(same(number(level(a).max(level(b))), a.max(b)));
            }
        }
        assert_eq!(level(a).is_nan(), a.is_nan());
        assert_eq!(level(a).is_finite(), a.is_finite());
        assert!(same(number(level(a).abs()), a.abs()));
        assert!(same(number(level(a).negate()), -a));
    }
}

#[test]
fn snapping_rounds_halves_away_and_saturates() {
    for x in [
        0.0, 0.4, 0.5, -0.5, 1.5, -1.5, 2.5, 32_766.5, 32_767.5, -40_000.0, 1e12, -1e12, 1e300,
        0.49999999999999994, f64::INFINITY, f64::NEG_INFINITY, f64::NAN,
    ] {
        let expected = (x.round() as i32).clamp(-32_767, 32_767);
        assert_eq!(level(x).snap(-32_767, 32_767), expected, "{x}");
    }
    let mut rng = StdRng::seed_from_u64(9);
    for _ in 0..10_000 {
        let x: f64 = rng.gen_range(-40_000.0..40_000.0);
        let expected = (x.round() as i32).clamp(-32_767, 32_767);
        assert_eq!(level(x).snap(-32_767, 32_767), expected, "{x}");
    }
}

#[test]
fn a_hundredfold_is_that_of_the_machine() {
    let mut rng = StdRng::seed_from_u64(4);
    for x in specials().into_iter().filter(|x| x.is_finite()) {
        assert!(same(number(level(x).hundredfold()), x * 100.0), "{x}");
    }
    for _ in 0..5_000 {
        let x = f64::from_bits(rng.gen::<u64>());
        if !x.is_finite() {
            continue;
        }
        assert!(same(number(level(x).hundredfold()), x * 100.0), "{x}");
    }
}

#[test]
fn decimals_are_those_of_the_formatter() {
    let check = |x: f64| {
        assert_eq!(fixed(level(x), 1), format!("{x:.1}"));
        assert_eq!(fixed(level(x), 2), format!("{x:.2}"));
    };
    for x in [
        0.0, -0.0, 0.05, 0.15, 0.25, 0.35, 2.5, -14.0, -0.1, 0.005, 0.015, 0.125, 0.375, 9.995, 1e15,
        123_456.789, -0.04, f64::INFINITY, f64::NEG_INFINITY, f64::NAN, f64::MIN_POSITIVE,
        99.95, 0.95,
    ] {
        check(x);
    }
    let mut rng = StdRng::seed_from_u64(5);
    for _ in 0..5_000 {
        check(rng.gen_range(-200.0..200.0));
    }
}

#[test]
fn texts_are_searched_replaced_and_joined() {
    assert_eq!(text::number(0), "0");
    assert_eq!(text::number(u64::MAX), "18446744073709551615");
    assert_eq!(text::padded_number(7, 3), "007");
    assert_eq!(text::replace("{a}-{a}-b", "{a}", "x"), "x-x-b");
    assert_eq!(text::replace("aaa", "aa", "b"), "ba");
    assert_eq!(text::replace("abc", "x", "y"), "abc");
    assert!(text::contains("hello", "ell"));
    assert!(text::contains("hello", ""));
    assert!(!text::contains("hello", "le"));
    let words = vec!["a".to_string(), "b".to_string(), "c".to_string()];
    assert_eq!(text::join(&words, ", "), "a, b, c");
    assert_eq!(text::join(&vec![], ", "), "");
    assert!(text::comes_before("a", "b"));
    assert!(text::comes_before("a", "ab"));
    assert!(!text::comes_before("b", "a"));
    assert!(!text::comes_before("a", "a"));
    assert_eq!(text::bool_str(true), "true");
}

#[test]
fn paths_are_read_as_the_standard_library_reads_them() {
    let paths = [
        "a/b.wav", "b.wav", "/x/y.tar.gz", "dir/", ".hidden", "a/.hidden.wav", "noext", "..",
        "a/..", "/", "", "./x", "a//b.c", "a/./b", "x.", "a/b/", "./out/./t/s.flac",
    ];
    for p in paths {
        let std_path = std::path::Path::new(p);
        let name = std_path.file_name().and_then(|x| x.to_str());
        let stem = std_path.file_stem().and_then(|x| x.to_str());
        let extension = std_path.extension().and_then(|x| x.to_str());
        assert_eq!(path::file_name(p).as_deref(), name, "name of {p}");
        assert_eq!(path::file_stem(p).as_deref(), stem, "stem of {p}");
        assert_eq!(path::extension(p).as_deref(), extension, "extension of {p}");
        for q in paths {
            assert_eq!(path::same(p, q), std_path == std::path::Path::new(q), "{p} and {q}");
            assert_eq!(
                path::join(p, q),
                std_path.join(q).to_str().unwrap().to_string(),
                "{p} joined with {q}"
            );
        }
    }
}
