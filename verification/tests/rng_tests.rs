use acs_seed_finder::rng::{DotNetRandom, GMathUtl, GRandom, RandomType};
use acs_seed_finder::sampling::{ratio_scale, sample_scale};

// Standalone LCG+rotate to compute expected values without calling GRandom.
fn raw_lcg(seed: u32) -> u32 {
    let step1 = (seed as u64).wrapping_mul(1103515245).wrapping_add(12345) as u32;
    (step1 << 16) | (step1 >> 16)
}

#[test]
fn grandom_default_seed_first3() {
    let mut rng = GRandom::new(5489);
    let mut s = 5489u32;
    for &expected in &[3210104055u32, 929300796, 4274339420] {
        s = raw_lcg(s);
        assert_eq!(rng.rand(), expected, "mismatch at seed trail");
    }
    assert_eq!(rng.seed, s);
}

#[test]
fn grandom_rand_range_seed1() {
    let mut rng = GRandom::new(1);
    let result = rng.rand_range(1, 7);
    assert_eq!(result, 3, "rand_range(1,7) with seed=1 should be 3");
}

#[test]
fn grandom_degenerate_range_advances_state() {
    let mut rng_a = GRandom::new(1);
    let degenerate_result = rng_a.rand_range(1, 1);
    assert!(
        degenerate_result == 0 || degenerate_result == 1,
        "rand_range(1,1) must return 0 or 1, got {}",
        degenerate_result
    );
    let after_degenerate = rng_a.rand_range(1, 1_000_000_000);

    let mut rng_b = GRandom::new(1);
    let _manual_rand = rng_b.rand();
    let after_manual = rng_b.rand_range(1, 1_000_000_000);

    assert_eq!(
        after_degenerate, after_manual,
        "degenerate rand_range must advance state by exactly one rand()"
    );
    assert_eq!(after_degenerate, 521_602_271);
}

#[test]
fn dotnet_random_large_range_no_panic() {
    let mut rng = DotNetRandom::new(42);
    for _ in 0..20 {
        let v = rng.next_range(-2_000_000_000, 2_000_000_000);
        assert!(
            v >= -2_000_000_000 && v <= 2_000_000_000,
            "next_range out of bounds: {}",
            v
        );
    }
}

#[test]
fn dotnet_random_degenerate_no_state_change() {
    let mut rng1 = DotNetRandom::new(42);
    let _ = rng1.next_range(7, 7);
    let v1 = rng1.next_range(0, 100);

    let mut rng2 = DotNetRandom::new(42);
    let v2 = rng2.next_range(0, 100);

    assert_eq!(v1, 66, "expected gold value from seed=42");
    assert_eq!(v2, 66);
    assert_eq!(
        v1, v2,
        "degenerate next_range must not advance DotNetRandom state"
    );
}

#[test]
fn dotnet_random_determinism() {
    let mut rng1 = DotNetRandom::new(12345);
    let mut rng2 = DotNetRandom::new(12345);
    for i in 0..50 {
        let v1 = rng1.next_range(0, 1000);
        let v2 = rng2.next_range(0, 1000);
        assert_eq!(v1, v2, "determinism failed at step {}", i);
    }
}

// The integer scaling agrees with the double arithmetic it models.
#[test]
fn ratio_scale_matches_double_arithmetic() {
    let mut src = GRandom::new(20240607);
    let spans = [1i32, 2, 3, 6, 7, 10, 24, 100, 1_000_000_000, i32::MAX, -1, -7, i32::MIN, 0];
    for _ in 0..20_000 {
        let r = src.rand();
        for &span in &spans {
            let ratio = r as f64 / 4294967295.0;
            let expected = (ratio * (span as f64)) as i32;
            assert_eq!(ratio_scale(r, span), expected, "r={} span={}", r, span);
        }
    }
    for &r in &[0u32, 1, 2, 4294967294, 4294967295, 2147483647, 2147483648] {
        for &span in &spans {
            let expected = ((r as f64 / 4294967295.0) * (span as f64)) as i32;
            assert_eq!(ratio_scale(r, span), expected, "r={} span={}", r, span);
        }
    }
}

#[test]
fn sample_scale_matches_double_arithmetic() {
    let mut src = GRandom::new(7);
    let widths = [0u32, 1, 2, 3, 10, 100, 1000, 65536, 2_000_000_000, 4_000_000_000, u32::MAX];
    for _ in 0..20_000 {
        let n = src.rand() >> 1;
        for &d in &widths {
            let expected = (n as f64 * 4.656612875245797e-10 * d as f64) as u64;
            assert_eq!(sample_scale(n, d), expected, "n={} d={}", n, d);
        }
    }
    for &n in &[0u32, 1, 2, 2147483645, 2147483646, 2147483647, 2147483648] {
        for &d in &widths {
            let expected = (n as f64 * 4.656612875245797e-10 * d as f64) as u64;
            assert_eq!(sample_scale(n, d), expected, "n={} d={}", n, d);
        }
    }
}

// The top draw of the .NET generator scales to exactly the width.
#[test]
fn sample_scale_top_draw_reaches_width() {
    assert_eq!(sample_scale(2147483647, 100), 100);
    assert_eq!(sample_scale(2147483646, 100), 99);
    assert_eq!(sample_scale(0, 100), 0);
}

// Reference double-based computation of the strict range and the sample.
fn reference_next_double(n: i32) -> f64 {
    (n as f64) * 4.6566128752457969E-10
}

#[test]
fn next_range_strict_matches_double_arithmetic() {
    for seed in [0, 1, 42, 12345, -7, i32::MAX, i32::MIN] {
        let mut a = DotNetRandom::new(seed);
        let mut b = DotNetRandom::new(seed);
        for i in 0..500 {
            let (lo, hi) = match i % 5 {
                0 => (0, 12),
                1 => (1000, 20000),
                2 => (-5, 5),
                3 => (30, 30),
                _ => (100, -100),
            };
            let n = b.next_sample();
            let (mn, mx) = if lo > hi { (hi, lo) } else { (lo, hi) };
            let expected = ((reference_next_double(n) * ((mx as i64) - (mn as i64)) as f64) as i64
                + mn as i64) as i32;
            assert_eq!(a.next_range_strict(lo, hi), expected);
        }
    }
}

#[test]
fn next_range_matches_double_arithmetic() {
    for seed in [3, 99, 161803398, -161803399, 2_000_000_000] {
        let mut a = DotNetRandom::new(seed);
        let mut b = DotNetRandom::new(seed);
        for i in 0..500 {
            let (lo, hi) = match i % 4 {
                0 => (0, 100),
                1 => (-2_000_000_000, 2_000_000_000),
                2 => (5, 15),
                _ => (9, 1),
            };
            let got = a.next_range(lo, hi);
            let (mn, mx) = if lo > hi { (hi, lo) } else { (lo, hi) };
            // same draw (no table entry reaches i32::MAX here), scaled through doubles
            let n = b.next_sample();
            let diff = (mx as i64) - (mn as i64);
            let expected = ((n as f64 * 4.656612875245797e-10 * diff as f64) as u32)
                .wrapping_add(mn as u32) as i32;
            assert_eq!(got, expected);
            assert!(got >= mn && got < mx);
        }
    }
}

#[test]
fn advance_matches_repeated_samples() {
    let mut a = DotNetRandom::new(555);
    let mut b = DotNetRandom::new(555);
    a.advance(37);
    for _ in 0..37 {
        b.next_sample();
    }
    assert_eq!(a.next_range(0, 1_000_000), b.next_range(0, 1_000_000));
}

#[test]
fn gmathutl_uses_next_range() {
    let mut g = GMathUtl::new(42);
    let mut d = DotNetRandom::new(42);
    for _ in 0..100 {
        assert_eq!(
            g.random_range_int(0, 100, RandomType::EmNone, "MakeMap"),
            d.next_range(0, 100)
        );
    }
}

#[test]
fn grandom_rand_range_stays_in_interval() {
    let mut g = GRandom::new(99);
    for _ in 0..10_000 {
        let v = g.rand_range(-3, 4);
        assert!((-3..=3).contains(&v));
        let w = g.rand_range(10, 2);
        // reversed bounds: [2 - 1, 10] after the swap
        assert!((1..=10).contains(&w));
    }
}
