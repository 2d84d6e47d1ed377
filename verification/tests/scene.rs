use path_tracer::members::{Corners, DistantCubeMap, FreeTriangle, Material, MemberTypes, Model, Sphere};
use path_tracer::mesh::{Mesh, PbrMetalRoughInfo, PrimitiveGroup, RgbInfo, TriangleIndices, TriangleKey};
use path_tracer::scalar::{Scalar, Vec3};
use path_tracer::scene::{
    decompose_groups, has_aabb, into_members, renderables, split_unconditional, CubeFaces, Element,
    Loaded, Member, Renderable, SceneError,
};
use path_tracer::texture::Texture;

fn s(x: f32) -> Scalar {
    Scalar::from_bits(x.to_bits())
}

fn v(x: f32, y: f32, z: f32) -> Vec3 {
    Vec3::new(s(x), s(y), s(z))
}

fn matte() -> Material {
    Material { diffuse: s(1.0), specular: s(0.0), roughness: s(0.5), emissive: None }
}

fn sphere() -> Sphere {
    Sphere { c: v(0.0, 0.0, 0.0), r: s(1.0), rgb: v(1.0, 0.0, 0.0), mat: matte(), animation: None }
}

fn triangle() -> FreeTriangle {
    FreeTriangle {
        verts: Corners { a: v(0.0, 0.0, 0.0), b: v(1.0, 0.0, 0.0), c: v(0.0, 1.0, 0.0) },
        norm: v(0.0, 0.0, 2.0),
        rgb: v(0.0, 1.0, 0.0),
        mat: matte(),
    }
}

fn sky_paths() -> DistantCubeMap {
    DistantCubeMap {
        neg_z: "nz".to_string(),
        pos_z: "pz".to_string(),
        neg_x: "nx".to_string(),
        pos_x: "px".to_string(),
        neg_y: "ny".to_string(),
        pos_y: "py".to_string(),
    }
}

fn model() -> Model {
    Model {
        path: "cube.gltf".to_string(),
        uniform_scale: s(2.0),
        translation: v(0.0, 0.0, 0.0),
        animation: None,
    }
}

fn face(x: f32) -> Texture {
    Texture::new(1, 1, vec![v(x, x, x)]).unwrap()
}

fn faces() -> CubeFaces {
    CubeFaces {
        neg_z: face(1.0),
        pos_z: face(2.0),
        neg_x: face(3.0),
        pos_x: face(4.0),
        neg_y: face(5.0),
        pos_y: face(6.0),
    }
}

fn mesh(counts: &[usize]) -> Mesh {
    Mesh {
        groups: counts
            .iter()
            .map(|n| PrimitiveGroup {
                poses: vec![v(0.0, 0.0, 0.0); 3],
                norms: vec![v(0.0, 0.0, 1.0); 3],
                tangents: None,
                indices: vec![TriangleIndices { a: 0, b: 1, c: 2 }; *n],
                rgb_info: RgbInfo { factor: v(1.0, 1.0, 1.0), coords: None },
                norm_info: None,
                metal_rough: PbrMetalRoughInfo { metal: s(0.0), rough: s(1.0), coords: None },
                texture: None,
                normal_map: None,
                metal_rough_map: None,
            })
            .collect(),
    }
}

fn scene() -> Vec<Member> {
    vec![
        Member::Elem(Element::Sphere(sphere())),
        Member::Grp(mesh(&[2, 1])),
        Member::Elem(Element::DistantCubeMap(faces())),
        Member::Grp(mesh(&[])),
        Member::Grp(mesh(&[1])),
        Member::Elem(Element::FreeTriangle(triangle())),
    ]
}

#[test]
fn into_members_keeps_the_order_and_unfolds_models() {
    let members = vec![
        MemberTypes::Sphere(sphere()),
        MemberTypes::Model(model()),
        MemberTypes::FreeTriangle(triangle()),
        MemberTypes::DistantCubeMap(sky_paths()),
        MemberTypes::Model(model()),
    ];
    let loaded = vec![
        Loaded::Plain,
        Loaded::Meshes(vec![mesh(&[1]), mesh(&[2, 3])]),
        Loaded::UnitNormal(v(0.0, 0.0, 1.0)),
        Loaded::Faces(faces()),
        Loaded::Meshes(vec![]),
    ];
    let scene = into_members(members, loaded).unwrap();
    assert_eq!(scene.len(), 5);
    match &scene[0] {
        Member::Elem(Element::Sphere(sp)) => assert_eq!(sp.r, s(1.0)),
        other => panic!("{other:?}"),
    }
    match &scene[1] {
        Member::Grp(m) => assert_eq!(m.groups.len(), 1),
        other => panic!("{other:?}"),
    }
    match &scene[2] {
        Member::Grp(m) => assert_eq!(m.groups[1].indices.len(), 3),
        other => panic!("{other:?}"),
    }
    match &scene[3] {
        Member::Elem(Element::FreeTriangle(t)) => {
            assert_eq!(t.norm, v(0.0, 0.0, 1.0));
            assert_eq!(t.verts, triangle().verts);
            assert_eq!(t.rgb, triangle().rgb);
        },
        other => panic!("{other:?}"),
    }
    match &scene[4] {
        Member::Elem(Element::DistantCubeMap(f)) => assert_eq!(f.pos_y.rgb, vec![v(6.0, 6.0, 6.0)]),
        other => panic!("{other:?}"),
    }
}

#[test]
fn into_members_needs_one_loaded_item_per_member() {
    let r = into_members(vec![MemberTypes::Sphere(sphere())], vec![]);
    assert_eq!(r.err(), Some(SceneError::AssetCount));
    let r = into_members(vec![], vec![Loaded::Plain]);
    assert_eq!(r.err(), Some(SceneError::AssetCount));
    assert!(into_members(vec![], vec![]).unwrap().is_empty());
}

#[test]
fn into_members_needs_items_of_the_right_kind() {
    let members = vec![MemberTypes::Sphere(sphere()), MemberTypes::FreeTriangle(triangle())];
    let r = into_members(members, vec![Loaded::Plain, Loaded::Plain]);
    assert_eq!(r.err(), Some(SceneError::AssetKind(1)));
    let r = into_members(vec![MemberTypes::Model(model())], vec![Loaded::Faces(faces())]);
    assert_eq!(r.err(), Some(SceneError::AssetKind(0)));
    let r = into_members(vec![MemberTypes::Sphere(sphere())], vec![Loaded::Meshes(vec![])]);
    assert_eq!(r.err(), Some(SceneError::AssetKind(0)));
}

#[test]
fn decompose_numbers_groups_in_order() {
    let (leaves, keys) = decompose_groups(&scene());
    assert_eq!(leaves, vec![0, 2, 5]);
    let key = |mesh, group, triangle| TriangleKey { mesh, group, triangle };
    assert_eq!(keys, vec![key(0, 0, 0), key(0, 0, 1), key(0, 1, 0), key(2, 0, 0)]);
}

#[test]
fn decompose_of_an_empty_scene_is_empty() {
    let (leaves, keys) = decompose_groups(&vec![]);
    assert!(leaves.is_empty());
    assert!(keys.is_empty());
}

#[test]
fn decompose_emits_every_triangle_once() {
    let members = vec![Member::Grp(mesh(&[3, 0, 2])), Member::Grp(mesh(&[4]))];
    let (_, mut keys) = decompose_groups(&members);
    assert_eq!(keys.len(), 9);
    keys.sort_by_key(|k| (k.mesh, k.group, k.triangle));
    keys.dedup();
    assert_eq!(keys.len(), 9);
}

#[test]
fn renderables_are_leaves_then_triangles() {
    let (leaves, keys) = decompose_groups(&scene());
    let list = renderables(&leaves, &keys);
    assert_eq!(list.len(), 7);
    assert_eq!(list[0], Renderable::Leaf(0));
    assert_eq!(list[2], Renderable::Leaf(5));
    assert_eq!(list[3], Renderable::MeshTriangle(TriangleKey { mesh: 0, group: 0, triangle: 0 }));
    assert_eq!(list[6], Renderable::MeshTriangle(TriangleKey { mesh: 2, group: 0, triangle: 0 }));
}

#[test]
fn only_the_sky_has_no_bounding_box() {
    let members = scene();
    assert!(has_aabb(&members, &Renderable::Leaf(0)));
    assert!(!has_aabb(&members, &Renderable::Leaf(2)));
    assert!(has_aabb(&members, &Renderable::Leaf(5)));
    assert!(has_aabb(
        &members,
        &Renderable::MeshTriangle(TriangleKey { mesh: 0, group: 0, triangle: 0 })
    ));
}

#[test]
fn split_sets_the_sky_apart() {
    let members = scene();
    let (leaves, keys) = decompose_groups(&members);
    let list = renderables(&leaves, &keys);
    let (unconditional, bounded) = split_unconditional(&members, &list);
    assert_eq!(unconditional, vec![1]);
    assert_eq!(bounded, vec![0, 2, 3, 4, 5, 6]);
}

#[test]
fn split_of_a_sky_alone_leaves_nothing_to_index() {
    let members = vec![Member::Elem(Element::DistantCubeMap(faces()))];
    let (leaves, keys) = decompose_groups(&members);
    let list = renderables(&leaves, &keys);
    let (unconditional, bounded) = split_unconditional(&members, &list);
    assert_eq!(unconditional, vec![0]);
    assert!(bounded.is_empty());
}

#[test]
fn description_builds_its_scene() {
    let description = path_tracer::members::VecInto::new(vec![
        MemberTypes::FreeTriangle(triangle()),
        MemberTypes::Model(model()),
    ]);
    let loaded = vec![Loaded::UnitNormal(v(0.0, 0.0, 1.0)), Loaded::Meshes(vec![mesh(&[1])])];
    let scene = description.into_scene(loaded).unwrap();
    assert_eq!(scene.len(), 2);
    assert!(matches!(scene[0], Member::Elem(Element::FreeTriangle(_))));
    assert!(matches!(scene[1], Member::Grp(_)));
}

#[test]
fn into_members_refuses_a_normal_that_is_not_of_unit_length() {
    let members = vec![MemberTypes::Sphere(sphere()), MemberTypes::FreeTriangle(triangle())];
    let r = into_members(members, vec![Loaded::Plain, Loaded::UnitNormal(v(0.0, 0.0, 2.0))]);
    assert_eq!(r.err(), Some(SceneError::NormalNotUnit(1)));
    let r = into_members(
        vec![MemberTypes::FreeTriangle(triangle())],
        vec![Loaded::UnitNormal(v(0.0, 0.0, 0.0))],
    );
    assert_eq!(r.err(), Some(SceneError::NormalNotUnit(0)));
    let r = into_members(
        vec![MemberTypes::FreeTriangle(triangle())],
        vec![Loaded::UnitNormal(v(f32::NAN, 0.0, 1.0))],
    );
    assert_eq!(r.err(), Some(SceneError::NormalNotUnit(0)));
}

#[test]
fn into_members_refuses_a_mesh_that_is_not_consistent() {
    let mut bent = mesh(&[1]);
    bent.groups[0].norms[2] = v(0.0, 0.5, 0.5);
    let r = into_members(
        vec![MemberTypes::Sphere(sphere()), MemberTypes::Model(model())],
        vec![Loaded::Plain, Loaded::Meshes(vec![mesh(&[2]), bent])],
    );
    assert_eq!(r.err(), Some(SceneError::MeshBroken(1)));
    let mut stray = mesh(&[1]);
    stray.groups[0].indices[0].c = 3;
    let r = into_members(vec![MemberTypes::Model(model())], vec![Loaded::Meshes(vec![stray])]);
    assert_eq!(r.err(), Some(SceneError::MeshBroken(0)));
}

#[test]
fn every_normal_of_a_scene_is_of_unit_length() {
    let normal = {
        let (x, y, z) = (1.0f64, -2.0f64, 0.5f64);
        let n = (x * x + y * y + z * z).sqrt();
        v((x / n) as f32, (y / n) as f32, (z / n) as f32)
    };
    let scene = into_members(
        vec![MemberTypes::FreeTriangle(triangle()), MemberTypes::Model(model())],
        vec![Loaded::UnitNormal(normal), Loaded::Meshes(vec![mesh(&[2, 1])])],
    )
    .unwrap();
    let length = |n: Vec3| {
        let c = |s: Scalar| f32::from_bits(s.to_bits()) as f64;
        (c(n.x) * c(n.x) + c(n.y) * c(n.y) + c(n.z) * c(n.z)).sqrt()
    };
    let mut seen = 0;
    for member in &scene {
        match member {
            Member::Elem(Element::FreeTriangle(t)) => {
                assert!((length(t.norm) - 1.0).abs() < 1.0e-5);
                assert_eq!(t.verts, triangle().verts);
                assert_eq!(t.rgb, triangle().rgb);
                assert_eq!(t.mat, triangle().mat);
                seen += 1;
            },
            Member::Grp(m) => {
                for g in &m.groups {
                    assert_eq!(g.norms.len(), g.poses.len());
                    for n in &g.norms {
                        assert!((length(*n) - 1.0).abs() < 1.0e-5);
                        seen += 1;
                    }
                }
            },
            Member::Elem(_) => {},
        }
    }
    assert_eq!(seen, 1 + 6);
}
