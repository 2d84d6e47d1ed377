use path_tracer::accel::Aabb;
use path_tracer::mesh::{
    triangles_from_indices, Mesh, MeshError, NormInfo, PbrMetalRoughInfo, PrimitiveGroup, RgbInfo,
    TriangleIndices, TriangleKey,
};
use path_tracer::scalar::{Scalar, Vec2, Vec3};
use path_tracer::texture::Texture;

fn s(x: f32) -> Scalar {
    Scalar::from_bits(x.to_bits())
}

fn v(x: f32, y: f32, z: f32) -> Vec3 {
    Vec3::new(s(x), s(y), s(z))
}

fn uv(x: f32, y: f32) -> Vec2 {
    Vec2 { x: s(x), y: s(y) }
}

fn tri(a: usize, b: usize, c: usize) -> TriangleIndices {
    TriangleIndices { a, b, c }
}

fn group(vertices: usize, triangles: Vec<TriangleIndices>) -> PrimitiveGroup {
    PrimitiveGroup {
        poses: vec![v(0.0, 0.0, 0.0); vertices],
        norms: vec![v(0.0, 0.0, 1.0); vertices],
        tangents: None,
        indices: triangles,
        rgb_info: RgbInfo { factor: v(1.0, 1.0, 1.0), coords: None },
        norm_info: None,
        metal_rough: PbrMetalRoughInfo { metal: s(0.0), rough: s(1.0), coords: None },
        texture: None,
        normal_map: None,
        metal_rough_map: None,
    }
}

fn white() -> Texture {
    Texture::new(1, 1, vec![v(1.0, 1.0, 1.0)]).unwrap()
}

#[test]
fn indices_group_into_triples() {
    assert_eq!(
        triangles_from_indices(&vec![0, 1, 2, 2, 1, 3], 4),
        Ok(vec![tri(0, 1, 2), tri(2, 1, 3)])
    );
    assert_eq!(triangles_from_indices(&vec![], 0), Ok(vec![]));
}

#[test]
fn indices_must_divide_into_triples() {
    assert_eq!(triangles_from_indices(&vec![0, 1], 4), Err(MeshError::IndexCount));
    assert_eq!(triangles_from_indices(&vec![0, 1, 2, 3], 4), Err(MeshError::IndexCount));
    assert_eq!(triangles_from_indices(&vec![9, 1], 4), Err(MeshError::IndexCount));
}

#[test]
fn indices_must_name_vertices() {
    assert_eq!(triangles_from_indices(&vec![0, 1, 4], 4), Err(MeshError::IndexOutOfRange(2)));
    assert_eq!(
        triangles_from_indices(&vec![0, 1, 2, 7, 8, 9], 4),
        Err(MeshError::IndexOutOfRange(3))
    );
    assert_eq!(triangles_from_indices(&vec![0, 0, 0], 0), Err(MeshError::IndexOutOfRange(0)));
}

#[test]
fn group_check_accepts_consistent_data() {
    assert!(group(3, vec![tri(0, 1, 2)]).check());
    assert!(group(0, vec![]).check());
    let mut textured = group(3, vec![tri(2, 1, 0)]);
    textured.tangents = Some(vec![v(1.0, 0.0, 0.0); 3]);
    textured.rgb_info.coords = Some(vec![uv(0.0, 0.0); 3]);
    textured.texture = Some(white());
    textured.norm_info = Some(NormInfo { scale: s(1.0), coords: vec![uv(0.0, 0.0); 3] });
    textured.normal_map = Some(white());
    textured.metal_rough.coords = Some(vec![uv(0.0, 0.0); 3]);
    textured.metal_rough_map = Some(white());
    assert!(textured.check());
}

#[test]
fn group_check_refuses_stray_indices() {
    assert!(!group(3, vec![tri(0, 1, 3)]).check());
    assert!(!group(3, vec![tri(0, 1, 2), tri(5, 0, 0)]).check());
}

#[test]
fn group_check_refuses_lists_of_the_wrong_length() {
    let mut g = group(3, vec![]);
    g.norms.pop();
    assert!(!g.check());
    let mut g = group(3, vec![]);
    g.tangents = Some(vec![v(1.0, 0.0, 0.0); 2]);
    assert!(!g.check());
    let mut g = group(3, vec![]);
    g.rgb_info.coords = Some(vec![uv(0.0, 0.0); 4]);
    g.texture = Some(white());
    assert!(!g.check());
    let mut g = group(3, vec![]);
    g.norm_info = Some(NormInfo { scale: s(1.0), coords: vec![] });
    g.normal_map = Some(white());
    assert!(!g.check());
}

#[test]
fn group_check_refuses_a_texture_without_coordinates() {
    let mut g = group(3, vec![]);
    g.texture = Some(white());
    assert!(!g.check());
    let mut g = group(3, vec![]);
    g.rgb_info.coords = Some(vec![uv(0.0, 0.0); 3]);
    assert!(!g.check());
    let mut g = group(3, vec![]);
    g.metal_rough_map = Some(white());
    assert!(!g.check());
    let mut g = group(3, vec![]);
    g.rgb_info.coords = Some(vec![uv(0.0, 0.0); 3]);
    g.texture = Some(Texture { width: 2, height: 2, rgb: vec![] });
    assert!(!g.check());
}

#[test]
fn mesh_check_looks_at_every_group() {
    let good = Mesh { groups: vec![group(3, vec![tri(0, 1, 2)]), group(1, vec![])] };
    assert!(good.check());
    let bad = Mesh { groups: vec![group(3, vec![tri(0, 1, 2)]), group(1, vec![tri(0, 0, 1)])] };
    assert!(!bad.check());
}

#[test]
fn mesh_decomposes_group_by_group() {
    let mesh = Mesh {
        groups: vec![
            group(3, vec![tri(0, 1, 2), tri(2, 1, 0)]),
            group(3, vec![]),
            group(3, vec![tri(0, 0, 0)]),
        ],
    };
    let key = |group, triangle| TriangleKey { mesh: 5, group, triangle };
    assert_eq!(mesh.decompose_to_elems(5), vec![key(0, 0), key(0, 1), key(2, 0)]);
    assert_eq!(Mesh { groups: vec![] }.decompose_to_elems(0), vec![]);
}

#[test]
fn cube_decomposes_into_twelve_triangles() {
    let flat: Vec<u32> = vec![
        0, 1, 2, 2, 3, 0, 4, 5, 6, 6, 7, 4, 0, 4, 7, 7, 3, 0, 1, 5, 6, 6, 2, 1, 3, 2, 6, 6, 7, 3,
        0, 1, 5, 5, 4, 0,
    ];
    let triangles = triangles_from_indices(&flat, 8).unwrap();
    let mut cube = group(8, triangles);
    // the cube from -1 to 1, scaled uniformly by two
    let uniform_scale = 2.0f32;
    cube.poses = (0..8)
        .map(|i| {
            let at = |bit: u32| (if i & bit != 0 { 1.0f32 } else { -1.0f32 }) * uniform_scale;
            v(at(1), at(2), at(4))
        })
        .collect();
    assert!(cube.check());
    let mesh = Mesh { groups: vec![cube] };
    let keys = mesh.decompose_to_elems(0);
    assert_eq!(keys.len(), 12);
    let corners = mesh.corner_points(&keys).unwrap();
    assert_eq!(corners.len(), 36);
    assert_eq!(
        Aabb::around(&corners),
        Some(Aabb { lo: v(-2.0, -2.0, -2.0), hi: v(2.0, 2.0, 2.0) })
    );
}

#[test]
fn corner_points_are_three_for_each_triangle_in_order() {
    let mut g = group(4, vec![tri(0, 1, 2), tri(3, 2, 1)]);
    g.poses = vec![v(0.0, 0.0, 0.0), v(1.0, 0.0, 0.0), v(0.0, 1.0, 0.0), v(1.0, 1.0, 5.0)];
    let mesh = Mesh { groups: vec![group(3, vec![]), g] };
    let keys = mesh.decompose_to_elems(7);
    assert_eq!(
        mesh.corner_points(&keys),
        Some(vec![
            v(0.0, 0.0, 0.0),
            v(1.0, 0.0, 0.0),
            v(0.0, 1.0, 0.0),
            v(1.0, 1.0, 5.0),
            v(0.0, 1.0, 0.0),
            v(1.0, 0.0, 0.0),
        ])
    );
    assert_eq!(mesh.corner_points(&vec![]), Some(vec![]));
}

#[test]
fn corner_points_need_keys_that_name_triangles() {
    let mesh = Mesh { groups: vec![group(3, vec![tri(0, 1, 2)])] };
    let key = |group, triangle| TriangleKey { mesh: 0, group, triangle };
    assert_eq!(mesh.corner_points(&vec![key(0, 0), key(1, 0)]), None);
    assert_eq!(mesh.corner_points(&vec![key(0, 1)]), None);
    let stray = Mesh { groups: vec![group(3, vec![tri(0, 1, 3)])] };
    assert_eq!(stray.corner_points(&vec![key(0, 0)]), None);
}

#[test]
fn box_around_points_is_tight() {
    assert_eq!(Aabb::around(&vec![]), None);
    assert_eq!(
        Aabb::around(&vec![v(1.0, -2.0, 3.0)]),
        Some(Aabb { lo: v(1.0, -2.0, 3.0), hi: v(1.0, -2.0, 3.0) })
    );
    let points = vec![v(1.0, 5.0, -1.0), v(-3.0, 6.0, 0.0), v(2.0, 4.5, -0.5), v(0.0, 5.5, -7.0)];
    assert_eq!(
        Aabb::around(&points),
        Some(Aabb { lo: v(-3.0, 4.5, -7.0), hi: v(2.0, 6.0, 0.0) })
    );
}

#[test]
fn group_check_refuses_normals_that_are_not_of_unit_length() {
    let mut g = group(3, vec![tri(0, 1, 2)]);
    g.norms[1] = v(0.0, 0.0, 1.1);
    assert!(!g.check());
    let mut g = group(3, vec![tri(0, 1, 2)]);
    g.norms[2] = v(0.0, 0.0, 0.0);
    assert!(!g.check());
    let mut g = group(3, vec![tri(0, 1, 2)]);
    g.norms[0] = v(0.6, 0.0, -0.8);
    assert!(g.check());
}
