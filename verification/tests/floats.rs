use semhash_rs::Float32;

fn float(x: f32) -> Float32 {
    Float32 { bits: x.to_bits() }
}

const SAMPLES: [f32; 13] = [
    f32::NEG_INFINITY,
    f32::MIN,
    -1.5,
    -1.0,
    -f32::MIN_POSITIVE,
    -0.0,
    0.0,
    f32::MIN_POSITIVE,
    0.25,
    1.0,
    1.000_000_1,
    f32::INFINITY,
    f32::NAN,
];

#[test]
fn numbers_compare_as_the_machine_compares_them() {
    for a in SAMPLES {
        for b in SAMPLES {
            let (x, y) = (float(a), float(b));
            assert_eq!(x == y, a == b);
            assert_eq!(x < y, a < b);
            assert_eq!(x.partial_cmp(&y), a.partial_cmp(&b));
            assert_eq!(x.is_below(y), a < b);
            assert_eq!(x.is_at_least(y), a >= b);
            assert_eq!(x.total_key().cmp(&y.total_key()), a.total_cmp(&b));
        }
        assert_eq!(float(a).is_nan(), a.is_nan());
    }
    assert_eq!(Float32::negative_infinity(), float(f32::NEG_INFINITY));
}

#[test]
fn clamping_lands_between_zero_and_one() {
    for x in SAMPLES {
        let clamped = float(x).clamp_to_unit();
        assert_eq!(clamped.bits, x.clamp(0.0, 1.0).to_bits());
        assert_eq!(clamped.clamp_to_unit().bits, clamped.bits);
    }
}
