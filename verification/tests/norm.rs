use path_tracer::norm::is_unit;
use path_tracer::scalar::{Scalar, Vec3};

fn v(x: f32, y: f32, z: f32) -> Vec3 {
    Vec3::new(
        Scalar::from_bits(x.to_bits()),
        Scalar::from_bits(y.to_bits()),
        Scalar::from_bits(z.to_bits()),
    )
}

/// The length in double precision, which holds the square of a binary32
/// number exactly and the sum of three such squares to about sixteen digits.
fn length(x: f32, y: f32, z: f32) -> f64 {
    let (x, y, z) = (x as f64, y as f64, z as f64);
    (x * x + y * y + z * z).sqrt()
}

#[test]
fn axes_are_of_unit_length() {
    assert!(is_unit(&v(1.0, 0.0, 0.0)));
    assert!(is_unit(&v(0.0, -1.0, 0.0)));
    assert!(is_unit(&v(-0.0, 0.0, 1.0)));
    assert!(is_unit(&v(0.6, 0.8, 0.0)));
}

#[test]
fn other_lengths_are_not_unit() {
    assert!(!is_unit(&v(0.0, 0.0, 0.0)));
    assert!(!is_unit(&v(0.0, 0.0, 2.0)));
    assert!(!is_unit(&v(1.0, 1.0, 0.0)));
    assert!(!is_unit(&v(0.5, 0.5, 0.5)));
    assert!(!is_unit(&v(3.0e38, 0.0, 0.0)));
    assert!(!is_unit(&v(1.0e-40, 0.0, 0.0)));
    assert!(!is_unit(&v(1.0, 0.01, 0.0)));
}

#[test]
fn what_is_no_number_is_not_unit() {
    assert!(!is_unit(&v(f32::NAN, 0.0, 1.0)));
    assert!(!is_unit(&v(1.0, f32::INFINITY, 0.0)));
    assert!(!is_unit(&v(0.0, 0.0, f32::NEG_INFINITY)));
}

#[test]
fn tolerance_is_one_hundred_thousandth() {
    assert!(is_unit(&v(1.000_009, 0.0, 0.0)));
    assert!(!is_unit(&v(1.000_011, 0.0, 0.0)));
    assert!(is_unit(&v(0.0, 0.999_991, 0.0)));
    assert!(!is_unit(&v(0.0, 0.999_989, 0.0)));
}

#[test]
fn tiny_components_do_not_disturb() {
    assert!(is_unit(&v(1.0, 1.0e-30, -1.0e-44)));
    assert!(is_unit(&v(1.0e-45, 1.0, 1.0e-20)));
    assert!(is_unit(&v(1.0, 0.004, 0.0)));
    assert!(!is_unit(&v(1.0, 0.005, 0.0)));
}

#[test]
fn is_unit_agrees_with_the_length_in_double_precision() {
    let mut state = 0x9E37_79B9u32;
    let mut next = move || {
        state ^= state << 13;
        state ^= state >> 17;
        state ^= state << 5;
        (state >> 8) as f32 / (1u32 << 24) as f32 * 2.0 - 1.0
    };
    let (mut close, mut far) = (0, 0);
    for i in 0..20_000 {
        let (x, y, z) = (next(), next(), next());
        let n = length(x, y, z) as f32;
        if n < 1.0e-3 {
            continue;
        }
        // vectors near unit length: normalised, then stretched a little
        let stretch = 1.0 + (i % 41) as f32 * 1.0e-6 - 2.0e-5;
        let (x, y, z) = (x / n * stretch, y / n * stretch, z / n * stretch);
        let error = (length(x, y, z) - 1.0).abs();
        if (error - 1.0e-5).abs() < 1.0e-12 {
            continue;
        }
        assert_eq!(is_unit(&v(x, y, z)), error < 1.0e-5, "{x} {y} {z}");
        if error < 1.0e-5 {
            close += 1;
        } else {
            far += 1;
        }
    }
    assert!(close > 5_000 && far > 5_000);
}

#[test]
fn normalised_vectors_are_of_unit_length() {
    for (x, y, z) in [(1.0f32, 2.0f32, 3.0f32), (-5.0, 0.25, 1.0e-3), (1.0e20, 1.0e20, 0.0)] {
        let n = length(x, y, z);
        let unit = v((x as f64 / n) as f32, (y as f64 / n) as f32, (z as f64 / n) as f32);
        assert!(is_unit(&unit));
    }
}
