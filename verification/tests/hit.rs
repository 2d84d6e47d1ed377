use path_tracer::hit::{
    closest_hit, cube_face, mesh_triangle_hit, sky_hit, sphere_hit, triangle_hit, CubeFace,
    HitResult, EPS_BITS,
};
use path_tracer::scalar::{Scalar, Vec2, Vec3};

fn s(x: f32) -> Scalar {
    Scalar::from_bits(x.to_bits())
}

fn hit(l: f32) -> Option<HitResult> {
    HitResult::accept(s(l), None)
}

#[test]
fn tolerance_is_one_ten_thousandth() {
    assert_eq!(EPS_BITS, 1.0e-4f32.to_bits());
}

#[test]
fn accept_takes_parameters_beyond_the_tolerance() {
    assert_eq!(hit(1.0), Some(HitResult { l: s(1.0), intermed: None }));
    assert!(hit(1.1e-4).is_some());
    assert!(hit(f32::INFINITY).is_some());
    assert_eq!(hit(1.0e-4), None);
    assert_eq!(hit(0.0), None);
    assert_eq!(hit(-3.0), None);
    assert_eq!(hit(f32::NAN), None);
}

#[test]
fn sphere_hit_prefers_the_nearer_root() {
    assert_eq!(sphere_hit(s(2.0), s(4.0)).unwrap().l, s(2.0));
    assert_eq!(sphere_hit(s(-1.0), s(4.0)).unwrap().l, s(4.0));
    assert_eq!(sphere_hit(s(0.00001), s(0.5)).unwrap().l, s(0.5));
    assert_eq!(sphere_hit(s(-4.0), s(-2.0)), None);
    assert_eq!(sphere_hit(s(f32::NAN), s(f32::NAN)), None);
}

#[test]
fn triangle_hit_takes_a_point_inside() {
    let r = triangle_hit(s(0.5), s(0.25), s(0.25), s(0.5), s(3.0)).unwrap();
    assert_eq!(r.l, s(3.0));
    assert_eq!(r.intermed, None);
    assert!(triangle_hit(s(-0.5), s(0.0), s(1.0), s(1.0), s(3.0)).is_some());
    assert!(triangle_hit(s(1.0e-4), s(1.0), s(0.0), s(1.0), s(3.0)).is_some());
}

#[test]
fn triangle_hit_refuses_a_parallel_ray() {
    assert_eq!(triangle_hit(s(0.00001), s(0.25), s(0.25), s(0.5), s(3.0)), None);
    assert_eq!(triangle_hit(s(-0.00001), s(0.25), s(0.25), s(0.5), s(3.0)), None);
    assert_eq!(triangle_hit(s(0.0), s(0.25), s(0.25), s(0.5), s(3.0)), None);
}

#[test]
fn triangle_hit_refuses_points_outside() {
    assert_eq!(triangle_hit(s(1.0), s(-0.1), s(0.25), s(0.15), s(3.0)), None);
    assert_eq!(triangle_hit(s(1.0), s(1.1), s(0.0), s(1.1), s(3.0)), None);
    assert_eq!(triangle_hit(s(1.0), s(0.25), s(-0.1), s(0.15), s(3.0)), None);
    assert_eq!(triangle_hit(s(1.0), s(0.75), s(0.5), s(1.25), s(3.0)), None);
}

#[test]
fn triangle_hit_refuses_hits_behind_the_tolerance() {
    assert_eq!(triangle_hit(s(1.0), s(0.25), s(0.25), s(0.5), s(0.00005)), None);
    assert_eq!(triangle_hit(s(1.0), s(0.25), s(0.25), s(0.5), s(-2.0)), None);
    assert_eq!(triangle_hit(s(1.0), s(0.25), s(0.25), s(0.5), s(f32::NAN)), None);
}

#[test]
fn closest_hit_is_the_least_parameter() {
    assert_eq!(closest_hit(&vec![hit(3.0), None, hit(1.5), hit(2.0)]), Some(2));
    assert_eq!(closest_hit(&vec![None, hit(7.0)]), Some(1));
}

#[test]
fn closest_hit_keeps_the_first_of_equals() {
    assert_eq!(closest_hit(&vec![hit(2.0), hit(1.0), hit(1.0), hit(1.0)]), Some(1));
}

#[test]
fn closest_hit_of_no_hit_is_none() {
    assert_eq!(closest_hit(&vec![]), None);
    assert_eq!(closest_hit(&vec![None, None]), None);
}

#[test]
fn closest_hit_matches_a_linear_scan() {
    let mut state = 0x2545_F491u32;
    for _ in 0..10_000 {
        let mut hits = Vec::new();
        let mut floats = Vec::new();
        for _ in 0..(state % 7) {
            state ^= state << 13;
            state ^= state >> 17;
            state ^= state << 5;
            let l = (state % 1000) as f32 / 50.0 - 4.0;
            floats.push(if l > 1.0e-4 { Some(l) } else { None });
            hits.push(hit(l));
        }
        state ^= state << 13;
        state ^= state >> 17;
        state ^= state << 5;
        let mut expected: Option<usize> = None;
        for (i, l) in floats.iter().enumerate() {
            if let Some(l) = l {
                if expected.map_or(true, |e| *l < floats[e].unwrap()) {
                    expected = Some(i);
                }
            }
        }
        assert_eq!(closest_hit(&hits), expected);
    }
}

#[test]
fn sky_lies_behind_every_finite_hit() {
    let sky = sky_hit();
    assert_eq!(sky.l, s(f32::MAX));
    assert_eq!(closest_hit(&vec![Some(sky), hit(1.0e30)]), Some(1));
    assert_eq!(closest_hit(&vec![Some(sky), None]), Some(0));
}

#[test]
fn cube_face_is_the_longest_axis() {
    let d = |x, y, z| Vec3::new(s(x), s(y), s(z));
    assert_eq!(cube_face(d(1.0, 0.2, -0.3)), CubeFace::PosX);
    assert_eq!(cube_face(d(-1.0, 0.2, -0.3)), CubeFace::NegX);
    assert_eq!(cube_face(d(0.1, 0.2, -0.3)), CubeFace::NegZ);
    assert_eq!(cube_face(d(0.1, 0.2, 0.3)), CubeFace::PosZ);
    assert_eq!(cube_face(d(0.1, -0.5, 0.3)), CubeFace::NegY);
    assert_eq!(cube_face(d(0.1, 0.5, 0.3)), CubeFace::PosY);
    assert_eq!(cube_face(d(1.0, 1.0, 1.0)), CubeFace::PosX);
    assert_eq!(cube_face(d(0.5, -1.0, 1.0)), CubeFace::NegY);
}

#[test]
fn cube_face_ignores_positive_scaling() {
    let dirs = [(0.3f32, -0.7f32, 0.2f32), (-0.9, 0.1, 0.4), (0.2, 0.3, -0.8), (0.5, 0.5, 0.1)];
    for (x, y, z) in dirs {
        let face = cube_face(Vec3::new(s(x), s(y), s(z)));
        for alpha in [0.001f32, 0.5, 3.0, 1.0e6] {
            let scaled = Vec3::new(s(alpha * x), s(alpha * y), s(alpha * z));
            assert_eq!(cube_face(scaled), face, "{x} {y} {z} by {alpha}");
        }
    }
}

#[test]
fn triangle_hit_is_two_sided_and_carries_the_parameter_alone() {
    // the triangle (0,0,0), (1,0,0), (0,1,0), met at (0.25, 0.25, 0) from the
    // front, where the determinant is 1, and from the back, where it is -1
    let front = triangle_hit(s(1.0), s(0.25), s(0.25), s(0.5), s(1.0));
    assert_eq!(front, Some(HitResult { l: s(1.0), intermed: None }));
    let back = triangle_hit(s(-1.0), s(0.25), s(0.25), s(0.5), s(1.0));
    assert_eq!(back, Some(HitResult { l: s(1.0), intermed: None }));
}

#[test]
fn mesh_triangle_hit_carries_the_barycentric_coordinates() {
    let r = mesh_triangle_hit(s(0.5), s(0.25), s(0.5), s(0.75), s(3.0)).unwrap();
    assert_eq!(r.l, s(3.0));
    assert_eq!(r.intermed, Some(Vec2 { x: s(0.25), y: s(0.5) }));
    assert!(mesh_triangle_hit(s(-1.0), s(0.0), s(1.0), s(1.0), s(2.0)).is_some());
}

#[test]
fn mesh_triangle_hit_refuses_what_the_triangle_test_refuses() {
    let cases = [
        (0.00001f32, 0.25f32, 0.25f32, 0.5f32, 3.0f32),
        (1.0, -0.1, 0.25, 0.15, 3.0),
        (1.0, 1.1, 0.0, 1.1, 3.0),
        (1.0, 0.25, -0.1, 0.15, 3.0),
        (1.0, 0.75, 0.5, 1.25, 3.0),
        (1.0, 0.25, 0.25, 0.5, 0.00005),
        (1.0, 0.25, 0.25, 0.5, f32::NAN),
    ];
    for (det, u, v, uv, l) in cases {
        assert_eq!(mesh_triangle_hit(s(det), s(u), s(v), s(uv), s(l)), None);
        assert_eq!(triangle_hit(s(det), s(u), s(v), s(uv), s(l)), None);
    }
}
