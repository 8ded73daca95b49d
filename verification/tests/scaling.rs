use semhash_rs::scaling::scale;
use semhash_rs::{compute_candidate_limit, compute_candidate_limit_default, CandidateLimit, Float32};

fn float(x: f32) -> Float32 {
    Float32 { bits: x.to_bits() }
}

#[test]
fn counts_are_scaled_as_the_machine_scales_them() {
    let counts: Vec<usize> = vec![
        0,
        1,
        2,
        3,
        5,
        7,
        9,
        10,
        99,
        100,
        101,
        999,
        1000,
        12345,
        65535,
        16_777_215,
        16_777_216,
        16_777_217,
        16_777_219,
        33_554_433,
        123_456_789,
        4_294_967_295,
        4_294_967_297,
        1_000_000_000_000_007,
        9_007_199_254_740_993,
        usize::MAX / 3,
        usize::MAX - 1,
        usize::MAX,
    ];
    let factors = [
        0.0,
        -0.0,
        f32::MIN_POSITIVE,
        f32::from_bits(1),
        f32::from_bits(12345),
        1e-20,
        0.001,
        0.1,
        0.2,
        1.0 / 3.0,
        0.4,
        0.5,
        0.7,
        0.95,
        0.999_999_9,
        1.0,
        1.5,
        3.0,
        1e10,
        1e30,
        f32::MAX,
        f32::INFINITY,
        f32::NAN,
        -1.0,
        f32::NEG_INFINITY,
    ];
    for n in counts {
        for factor in factors {
            assert_eq!(
                scale(n, float(factor), false),
                (n as f32 * factor) as usize,
                "{n} * {factor} down"
            );
            if factor >= 0.0 {
                assert_eq!(
                    scale(n, float(factor), true),
                    (n as f32 * factor).ceil() as usize,
                    "{n} * {factor} up"
                );
            }
        }
    }
}

#[test]
fn small_counts_are_scaled_as_the_machine_scales_them() {
    for n in 0..3000usize {
        for percent in 0..=100u8 {
            let factor = f32::from(percent) / 100.0;
            assert_eq!(
                scale(n, float(factor), true),
                (n as f32 * factor).ceil() as usize
            );
        }
    }
}

#[test]
fn the_default_limit_is_a_tenth_within_bounds() {
    for total in [0, 1, 99, 100, 999, 1001, 1009, 1010, 5555, 9999, 10_000, 10_001, 1 << 40] {
        for size in [0, 1, 50, 100, 777, 1000, 2000] {
            let expected = (total / 10).max(size).max(100).min(1000).min(total);
            assert_eq!(compute_candidate_limit_default(total, size), expected);
            assert_eq!(
                compute_candidate_limit(total, size, float(0.1), 100, 1000),
                (((total as f32) * 0.1) as usize)
                    .max(size)
                    .max(100)
                    .min(1000)
                    .min(total)
            );
        }
    }
}

#[test]
fn limits_stand_for_counts() {
    assert_eq!(CandidateLimit::from(7).resolve(3, 2), 7);
    assert_eq!(CandidateLimit::default(), CandidateLimit::Auto);
    assert_eq!(CandidateLimit::Auto.resolve(5000, 20), 500);
}
