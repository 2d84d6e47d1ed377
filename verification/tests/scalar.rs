use path_tracer::scalar::Scalar;

fn s(x: f32) -> Scalar {
    Scalar::from_bits(x.to_bits())
}

#[test]
fn scalar_order_matches_float_order() {
    let values = [
        f32::NEG_INFINITY,
        -3.5,
        -1.0e-40,
        -0.0,
        0.0,
        1.0e-40,
        1.0e-4,
        0.5,
        1.0,
        3.0e38,
        f32::INFINITY,
        f32::NAN,
    ];
    for a in values {
        for b in values {
            assert_eq!(s(a).lt(&s(b)), a < b, "{a} < {b}");
            assert_eq!(s(a).le(&s(b)), a <= b, "{a} <= {b}");
        }
    }
}

#[test]
fn scalar_classification_matches_float() {
    for x in [0.0f32, -0.0, 1.0, -2.5, 1.0e-45, f32::MAX, f32::INFINITY, f32::NEG_INFINITY, f32::NAN] {
        assert_eq!(s(x).is_nan(), x.is_nan());
        assert_eq!(s(x).is_finite(), x.is_finite());
        assert_eq!(s(x).is_infinite(), x.is_infinite());
        assert_eq!(s(x).is_sign_negative(), x.is_sign_negative());
        assert_eq!(s(x).is_positive(), x > 0.0);
    }
}

#[test]
fn scalar_max_prefers_numbers_over_nan() {
    assert_eq!(s(1.0).max(s(2.0)), s(2.0));
    assert_eq!(s(2.0).max(s(1.0)), s(2.0));
    assert_eq!(s(f32::NAN).max(s(1.0)), s(1.0));
    assert_eq!(s(1.0).max(s(f32::NAN)), s(1.0));
    assert_eq!(s(0.0).max(s(-0.0)), s(0.0));
}

#[test]
fn scalar_decompose_is_exact() {
    for x in [1.0f32, 0.1, 30.0, 1.0e-40, 3.0e38, 0.0, 29.97] {
        let (m, e) = s(x).decompose();
        let rebuilt = (m as f64) * 2f64.powi(e);
        assert_eq!(rebuilt, x as f64);
    }
}

#[test]
fn scalar_from_count_is_the_float_of_the_count() {
    for n in [0usize, 1, 2, 3, 5, 12, 255, 256, 1000, 65_535, 1 << 23, (1 << 24) - 1, 1 << 24] {
        assert_eq!(Scalar::from_count(n).to_bits(), (n as f32).to_bits(), "{n}");
    }
}

#[test]
fn scalar_from_count_stops_where_unit_steps_stop() {
    let limit = (16_777_216.0f32).to_bits();
    assert_eq!(Scalar::from_count((1 << 24) + 1).to_bits(), limit);
    assert_eq!(Scalar::from_count(usize::MAX).to_bits(), limit);
    // the same number is reached by adding one, over and over
    let mut x = 16_777_215.0f32;
    x += 1.0;
    x += 1.0;
    assert_eq!(x.to_bits(), limit);
}

#[test]
fn scalar_bits_round_trip() {
    assert_eq!(Scalar::from_bits(0x3F80_0000).to_bits(), 0x3F80_0000);
    assert_eq!(Scalar::zero().to_bits(), 0.0f32.to_bits());
}
