use keyframe::functions::Linear;
use keyframe::mint::Point3;
use keyframe::{AnimationSequence, Keyframe as Stop};
use path_tracer::animation::{count_frames, AnimError};
use path_tracer::members::{
    Animation, Corners, DistantCubeMap, EaseKind, FreeTriangle, Keyframe, Material, MemberTypes,
    Model, Sphere, VecInto,
};
use path_tracer::scalar::{Scalar, Vec3};

fn s(x: f32) -> Scalar {
    Scalar::from_bits(x.to_bits())
}

fn v(x: f32, y: f32, z: f32) -> Vec3 {
    Vec3::new(s(x), s(y), s(z))
}

fn f(x: Scalar) -> f32 {
    f32::from_bits(x.to_bits())
}

fn matte() -> Material {
    Material { diffuse: s(1.0), specular: s(0.0), roughness: s(0.5), emissive: None }
}

fn key(time: f32, x: f32, y: f32, z: f32) -> Keyframe {
    Keyframe { time: s(time), translation: v(x, y, z), ease: EaseKind::Linear }
}

fn sphere(track: Option<Vec<Keyframe>>) -> MemberTypes {
    MemberTypes::Sphere(Sphere {
        c: v(9.0, 9.0, 9.0),
        r: s(1.0),
        rgb: v(1.0, 0.0, 0.0),
        mat: matte(),
        animation: track.map(|keyframes| Animation { keyframes }),
    })
}

fn triangle() -> MemberTypes {
    MemberTypes::FreeTriangle(FreeTriangle {
        verts: Corners { a: v(0.0, 0.0, 0.0), b: v(1.0, 0.0, 0.0), c: v(0.0, 1.0, 0.0) },
        norm: v(0.0, 0.0, 2.0),
        rgb: v(0.0, 1.0, 0.0),
        mat: matte(),
    })
}

fn sky() -> MemberTypes {
    MemberTypes::DistantCubeMap(DistantCubeMap {
        neg_z: "nz.png".to_string(),
        pos_z: "pz.png".to_string(),
        neg_x: "nx.png".to_string(),
        pos_x: "px.png".to_string(),
        neg_y: "ny.png".to_string(),
        pos_y: "py.png".to_string(),
    })
}

fn model(track: Option<Vec<Keyframe>>) -> MemberTypes {
    MemberTypes::Model(Model {
        path: "cube.gltf".to_string(),
        uniform_scale: s(2.0),
        translation: v(0.0, 0.0, 0.0),
        animation: track.map(|keyframes| Animation { keyframes }),
    })
}

/// Samples a track at frame times, as a caller of the library does.
fn sample(track: &[Keyframe], frames: usize, framerate: f32) -> Vec<Vec3> {
    let mut sequence = AnimationSequence::<Point3<f32>>::new();
    for k in track {
        let at = Point3 { x: f(k.translation.x), y: f(k.translation.y), z: f(k.translation.z) };
        sequence.insert(Stop::new_dynamic(at, f(k.time), Box::new(Linear))).unwrap();
    }
    let step = 1.0 / framerate as f64;
    let mut out = Vec::new();
    for _ in 0..frames {
        let p = sequence.now_strict().unwrap();
        out.push(v(p.x, p.y, p.z));
        sequence.advance_by(step);
    }
    out
}

#[test]
fn count_frames_is_the_floor_of_the_product() {
    assert_eq!(count_frames(s(1.0), s(30.0)), Some(30));
    assert_eq!(count_frames(s(2.5), s(24.0)), Some(60));
    assert_eq!(count_frames(s(0.99), s(10.0)), Some(9));
    assert_eq!(count_frames(s(1.0), s(29.97)), Some(29));
    assert_eq!(count_frames(s(0.5), s(1.0)), Some(0));
    assert_eq!(count_frames(s(3.0), s(0.5)), Some(1));
    assert_eq!(count_frames(s(1.0e-40), s(1.0e-40)), Some(0));
    assert_eq!(count_frames(s(1048576.0), s(1048576.0)), Some(1 << 40));
}

#[test]
fn count_frames_reads_the_exact_values() {
    // 0.1 as binary32 is a little more than one tenth, so ten times it is a
    // little more than one
    assert_eq!(count_frames(s(0.1), s(10.0)), Some(1));
    // 0.7 as binary32 is a little less than seven tenths
    assert_eq!(count_frames(s(0.7), s(10.0)), Some(6));
}

#[test]
fn count_frames_is_zero_without_a_positive_duration_and_rate() {
    for (t, r) in [
        (0.0f32, 30.0f32),
        (-0.0, 30.0),
        (-1.0, 30.0),
        (1.0, 0.0),
        (1.0, -30.0),
        (f32::NAN, 30.0),
        (1.0, f32::NAN),
        (f32::INFINITY, 0.0),
        (0.0, f32::INFINITY),
        (f32::INFINITY, f32::NAN),
        (f32::NEG_INFINITY, 30.0),
    ] {
        assert_eq!(count_frames(s(t), s(r)), Some(0), "{t} {r}");
    }
}

#[test]
fn count_frames_has_no_value_beyond_the_integers() {
    assert_eq!(count_frames(s(f32::INFINITY), s(30.0)), None);
    assert_eq!(count_frames(s(1.0), s(f32::INFINITY)), None);
    assert_eq!(count_frames(s(f32::MAX), s(f32::MAX)), None);
    assert_eq!(count_frames(s(1.0e30), s(1.0)), None);
}

#[test]
fn animation_new_takes_strictly_increasing_finite_times() {
    assert!(Animation::new(vec![key(0.0, 0.0, 0.0, 0.0)]).is_some());
    assert!(Animation::new(vec![key(0.0, 0.0, 0.0, 0.0), key(1.0, 1.0, 0.0, 0.0)]).is_some());
    assert!(Animation::new(vec![]).is_none());
    assert!(Animation::new(vec![key(1.0, 0.0, 0.0, 0.0), key(1.0, 1.0, 0.0, 0.0)]).is_none());
    assert!(Animation::new(vec![key(2.0, 0.0, 0.0, 0.0), key(1.0, 1.0, 0.0, 0.0)]).is_none());
    assert!(Animation::new(vec![key(f32::NAN, 0.0, 0.0, 0.0)]).is_none());
    assert!(Animation::new(vec![key(0.0, 0.0, 0.0, 0.0), key(f32::INFINITY, 0.0, 0.0, 0.0)])
        .is_none());
}

#[test]
fn animation_last_time_is_the_last_keyframe() {
    let a = Animation::new(vec![key(0.0, 0.0, 0.0, 0.0), key(1.5, 1.0, 0.0, 0.0)]).unwrap();
    assert_eq!(a.last_time(), s(1.5));
}

#[test]
fn members_check_finds_a_broken_track() {
    let good = VecInto::new(vec![sphere(Some(vec![key(0.0, 0.0, 0.0, 0.0)])), triangle()]);
    assert!(good.check());
    let bad = VecInto::new(vec![triangle(), model(Some(vec![]))]);
    assert!(!bad.check());
}

#[test]
fn last_timestamp_is_the_latest_final_keyframe() {
    let members = VecInto::new(vec![
        sphere(Some(vec![key(0.0, 0.0, 0.0, 0.0), key(2.0, 1.0, 0.0, 0.0)])),
        triangle(),
        model(Some(vec![key(0.0, 0.0, 0.0, 0.0), key(3.5, 0.0, 1.0, 0.0)])),
        sky(),
        sphere(None),
    ]);
    assert_eq!(members.get_last_timestamp(), s(3.5));
    assert_eq!(members.frame_count(s(2.0)), Some(7));
}

#[test]
fn last_timestamp_of_a_still_scene_is_zero() {
    let members = VecInto::new(vec![triangle(), sky(), sphere(None)]);
    assert_eq!(members.get_last_timestamp(), s(0.0));
    assert_eq!(members.frame_count(s(30.0)), Some(0));
    let empty: VecInto<MemberTypes> = VecInto::new(vec![]);
    assert_eq!(empty.get_last_timestamp(), s(0.0));
}

#[test]
fn extract_anim_places_the_sampled_positions() {
    let track = vec![key(0.0, 0.0, 0.0, 0.0), key(1.0, 4.0, 0.0, 0.0)];
    let members = VecInto::new(vec![triangle(), sphere(Some(track.clone())), sky(), model(None)]);
    let samples = vec![
        vec![],
        vec![v(0.0, 0.0, 0.0), v(1.0, 0.0, 0.0), v(2.0, 0.0, 0.0), v(3.0, 0.0, 0.0)],
        vec![v(7.0, 7.0, 7.0)],
        vec![],
    ];
    let frames = members.extract_anim(s(4.0), &samples).unwrap();
    assert_eq!(frames.len(), 4);
    for (i, frame) in frames.iter().enumerate() {
        assert_eq!(frame.len(), 4);
        match &frame.0[0] {
            MemberTypes::FreeTriangle(t) => assert_eq!(t.norm, v(0.0, 0.0, 2.0)),
            other => panic!("frame {i}: {other:?}"),
        }
        match &frame.0[1] {
            MemberTypes::Sphere(sp) => {
                assert_eq!(sp.c, v(i as f32, 0.0, 0.0));
                assert_eq!(sp.r, s(1.0));
                assert_eq!(sp.rgb, v(1.0, 0.0, 0.0));
                assert_eq!(sp.animation.as_ref().unwrap().keyframes, track);
            },
            other => panic!("frame {i}: {other:?}"),
        }
        match &frame.0[2] {
            MemberTypes::DistantCubeMap(d) => assert_eq!(d.pos_y, "py.png"),
            other => panic!("frame {i}: {other:?}"),
        }
        match &frame.0[3] {
            MemberTypes::Model(m) => {
                assert_eq!(m.translation, v(0.0, 0.0, 0.0));
                assert_eq!(m.path, "cube.gltf");
            },
            other => panic!("frame {i}: {other:?}"),
        }
    }
}

#[test]
fn extract_anim_moves_models_by_translation() {
    let track = vec![key(0.0, 0.0, 0.0, 0.0), key(1.0, 0.0, 2.0, 0.0)];
    let members = VecInto::new(vec![model(Some(track))]);
    let samples = vec![vec![v(0.0, 0.0, 0.0), v(0.0, 1.0, 0.0)]];
    let frames = members.extract_anim(s(2.0), &samples).unwrap();
    assert_eq!(frames.len(), 2);
    match &frames[1].0[0] {
        MemberTypes::Model(m) => {
            assert_eq!(m.translation, v(0.0, 1.0, 0.0));
            assert_eq!(m.uniform_scale, s(2.0));
        },
        other => panic!("{other:?}"),
    }
}

#[test]
fn extract_anim_refuses_samples_of_the_wrong_shape() {
    let track = vec![key(0.0, 0.0, 0.0, 0.0), key(1.0, 4.0, 0.0, 0.0)];
    let short = vec![vec![v(0.0, 0.0, 0.0)]];
    let members = VecInto::new(vec![sphere(Some(track.clone()))]);
    assert_eq!(members.extract_anim(s(4.0), &short).err(), Some(AnimError::SampleShape));
    let members = VecInto::new(vec![sphere(Some(track)), triangle()]);
    let one_row = vec![vec![v(0.0, 0.0, 0.0); 4]];
    assert_eq!(members.extract_anim(s(4.0), &one_row).err(), Some(AnimError::SampleShape));
}

#[test]
fn extract_anim_refuses_an_endless_animation() {
    let track = vec![key(0.0, 0.0, 0.0, 0.0), key(1.0, 4.0, 0.0, 0.0)];
    let members = VecInto::new(vec![sphere(Some(track))]);
    assert_eq!(
        members.extract_anim(s(f32::INFINITY), &vec![vec![]]).err(),
        Some(AnimError::TooManyFrames)
    );
}

#[test]
fn extract_anim_of_a_still_scene_has_no_frames() {
    let members = VecInto::new(vec![triangle(), sphere(None)]);
    let frames = members.extract_anim(s(30.0), &vec![vec![], vec![]]).unwrap();
    assert!(frames.is_empty());
}

#[test]
fn animated_sphere_is_halfway_at_frame_fifteen() {
    let track = vec![key(0.0, 0.0, 0.0, 0.0), key(1.0, 1.0, 0.0, 0.0)];
    let members = VecInto::new(vec![sphere(Some(track.clone()))]);
    let frames = members.frame_count(s(30.0)).unwrap();
    assert_eq!(frames, 30);
    let samples = vec![sample(&track, frames, 30.0)];
    let scenes = members.extract_anim(s(30.0), &samples).unwrap();
    assert_eq!(scenes.len(), 30);
    match &scenes[15].0[0] {
        MemberTypes::Sphere(sp) => {
            assert!((f(sp.c.x) - 0.5).abs() < 1e-3);
            assert!(f(sp.c.y).abs() < 1e-3);
            assert!(f(sp.c.z).abs() < 1e-3);
        },
        other => panic!("{other:?}"),
    }
    match &scenes[0].0[0] {
        MemberTypes::Sphere(sp) => assert_eq!(sp.c, v(0.0, 0.0, 0.0)),
        other => panic!("{other:?}"),
    }
}

#[test]
fn convert_keeps_the_order() {
    let list: VecInto<u8> = VecInto::new(vec![3, 1, 2]);
    let wide: Vec<u32> = list.convert();
    assert_eq!(wide, vec![3u32, 1, 2]);
}

#[test]
fn material_emits_black_without_an_emissive_colour() {
    assert_eq!(matte().emitted(), v(0.0, 0.0, 0.0));
    let lamp = Material { emissive: Some(v(1.0, 2.0, 3.0)), ..matte() };
    assert_eq!(lamp.emitted(), v(1.0, 2.0, 3.0));
}

#[test]
fn placed_moves_spheres_and_models_only() {
    match sphere(None).placed(v(1.0, 2.0, 3.0)) {
        MemberTypes::Sphere(sp) => assert_eq!(sp.c, v(1.0, 2.0, 3.0)),
        other => panic!("{other:?}"),
    }
    match triangle().placed(v(1.0, 2.0, 3.0)) {
        MemberTypes::FreeTriangle(t) => assert_eq!(t.verts.b, v(1.0, 0.0, 0.0)),
        other => panic!("{other:?}"),
    }
    assert!(!triangle().is_animated());
    assert!(sphere(Some(vec![key(0.0, 0.0, 0.0, 0.0)])).is_animated());
}
