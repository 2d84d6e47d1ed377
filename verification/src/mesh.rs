//! Triangle meshes: primitive groups with shared vertex data, their
//! validity, and their decomposition into triangles.

use vstd::prelude::*;
use crate::norm::{is_unit, is_unit_spec};
use crate::scalar::{Scalar, Vec2, Vec3};
use crate::texture::Texture;

verus! {

/// The three vertices of a mesh triangle, as positions in the vertex list of
/// its primitive group.
#[derive(Clone, Copy, Debug, PartialEq, Eq, Structural)]
pub struct TriangleIndices {
    pub a: usize,
    pub b: usize,
    pub c: usize,
}

/// Why vertex data was not taken.
#[derive(Clone, Copy, Debug, PartialEq, Eq, Structural)]
pub enum MeshError {
    /// The index list does not divide into triples.
    IndexCount,
    /// The index at this position of the list names no vertex.
    IndexOutOfRange(usize),
}

/// Base colour: a factor and, with a texture, where each vertex lies on it.
#[derive(Debug)]
pub struct RgbInfo {
    pub factor: Vec3,
    pub coords: Option<Vec<Vec2>>,
}

/// Normal map: how strongly it bends normals, and where each vertex lies on
/// it.
#[derive(Debug)]
pub struct NormInfo {
    pub scale: Scalar,
    pub coords: Vec<Vec2>,
}

/// Metalness and roughness: two factors and, with a texture, where each
/// vertex lies on it.
#[derive(Debug)]
pub struct PbrMetalRoughInfo {
    pub metal: Scalar,
    pub rough: Scalar,
    pub coords: Option<Vec<Vec2>>,
}

/// One primitive group of a mesh.
#[derive(Debug)]
pub struct PrimitiveGroup {
    pub poses: Vec<Vec3>,
    pub norms: Vec<Vec3>,
    pub tangents: Option<Vec<Vec3>>,
    pub indices: Vec<TriangleIndices>,
    pub rgb_info: RgbInfo,
    pub norm_info: Option<NormInfo>,
    pub metal_rough: PbrMetalRoughInfo,
    pub texture: Option<Texture>,
    pub normal_map: Option<Texture>,
    pub metal_rough_map: Option<Texture>,
}

/// Whether an optional per-vertex list has one entry for each of `n` vertices.
pub open spec fn covers<T>(list: Option<Vec<T>>, n: nat) -> bool {
    match list {
        Some(v) => v@.len() == n,
        None => true,
    }
}

/// Whether an optional texture is a texture.
pub open spec fn texture_ok(t: Option<Texture>) -> bool {
    match t {
        Some(t) => t.wf(),
        None => true,
    }
}

/// Whether the triangle names three vertices out of `n`.
pub open spec fn in_range(t: TriangleIndices, n: nat) -> bool {
    t.a < n && t.b < n && t.c < n
}

/// The triangles that a flat index list states, three indices each.
pub open spec fn triples(flat: Seq<u32>) -> Seq<TriangleIndices> {
    Seq::new(
        flat.len() / 3,
        |k: int|
            TriangleIndices {
                a: flat[3 * k] as usize,
                b: flat[3 * k + 1] as usize,
                c: flat[3 * k + 2] as usize,
            },
    )
}

/// Position of the first index that names no vertex out of `n`, from `from`
/// on.
pub open spec fn first_stray(flat: Seq<u32>, n: nat, from: int) -> Option<int>
    decreases flat.len() - from,
{
    if from < 0 || from >= flat.len() {
        None
    } else if flat[from] >= n {
        Some(from)
    } else {
        first_stray(flat, n, from + 1)
    }
}

/// Without a stray index every triangle names vertices.
pub proof fn lemma_no_stray(flat: Seq<u32>, n: nat, from: int)
    requires
        0 <= from,
        first_stray(flat, n, from).is_none(),
    ensures
        forall|i: int| from <= i < flat.len() ==> flat[i] < n,
    decreases flat.len() - from,
{
    if from < flat.len() {
        lemma_no_stray(flat, n, from + 1);
    }
}

/// Groups a flat index list into triangles over `vertices` vertices.
///
/// Fails where the list does not divide into triples, and else at the first
/// index that names no vertex.
pub fn triangles_from_indices(flat: &Vec<u32>, vertices: usize) -> (r: Result<
    Vec<TriangleIndices>,
    MeshError,
>)
    ensures
        match r {
            Ok(triangles) => {
                &&& flat@.len() % 3 == 0
                &&& first_stray(flat@, vertices as nat, 0).is_none()
                &&& triangles@ == triples(flat@)
                &&& forall|k: int|
                    0 <= k < triangles@.len() ==> in_range(
                        #[trigger] triangles@[k],
                        vertices as nat,
                    )
            },
            Err(MeshError::IndexCount) => flat@.len() % 3 != 0,
            Err(MeshError::IndexOutOfRange(i)) => flat@.len() % 3 == 0 && first_stray(
                flat@,
                vertices as nat,
                0,
            ) == Some(i as int),
        },
{
    let n = flat.len();
    if n % 3 != 0 {
        return Err(MeshError::IndexCount);
    }
    let mut i: usize = 0;
    while i < n
        invariant
            n == flat@.len(),
            n % 3 == 0,
            0 <= i <= n,
            first_stray(flat@, vertices as nat, 0) == first_stray(
                flat@,
                vertices as nat,
                i as int,
            ),
        decreases n - i,
    {
        if flat[i] as u64 >= vertices as u64 {
            assert(first_stray(flat@, vertices as nat, i as int) == Some(i as int));
            return Err(MeshError::IndexOutOfRange(i));
        }
        i += 1;
    }
    proof {
        lemma_no_stray(flat@, vertices as nat, 0);
    }
    let count = n / 3;
    let mut out: Vec<TriangleIndices> = Vec::new();
    let mut k: usize = 0;
    while k < count
        invariant
            n == flat@.len(),
            n == 3 * count,
            0 <= k <= count,
            out@.len() == k,
            forall|i: int| 0 <= i < n ==> flat@[i] < vertices,
            forall|j: int| 0 <= j < k ==> out@[j] == triples(flat@)[j],
        decreases count - k,
    {
        out.push(
            TriangleIndices {
                a: flat[3 * k] as usize,
                b: flat[3 * k + 1] as usize,
                c: flat[3 * k + 2] as usize,
            },
        );
        k += 1;
    }
    assert(out@ =~= triples(flat@));
    Ok(out)
}

fn covers_check<T>(list: &Option<Vec<T>>, n: usize) -> (r: bool)
    ensures
        r == covers(*list, n as nat),
{
    match list {
        Some(v) => v.len() == n,
        None => true,
    }
}

fn texture_check(t: &Option<Texture>) -> (r: bool)
    ensures
        r == texture_ok(*t),
{
    match t {
        Some(t) => t.check(),
        None => true,
    }
}

impl PrimitiveGroup {
    /// Number of vertices.
    pub open spec fn vertices(&self) -> nat {
        self.poses@.len()
    }

    /// Every normal is of unit length.
    pub open spec fn normals_unit(&self) -> bool {
        forall|k: int| 0 <= k < self.norms@.len() ==> is_unit_spec(#[trigger] self.norms@[k])
    }

    /// The group is consistent: one normal per vertex, each of unit length,
    /// and one tangent and one texture coordinate where there are any; every
    /// triangle names vertices of the group; a texture comes with its
    /// coordinates and the other way round; every texture is one.
    pub open spec fn wf(&self) -> bool {
        &&& self.norms@.len() == self.vertices()
        &&& self.normals_unit()
        &&& covers(self.tangents, self.vertices())
        &&& covers(self.rgb_info.coords, self.vertices())
        &&& covers(self.metal_rough.coords, self.vertices())
        &&& (self.norm_info matches Some(info) ==> info.coords@.len() == self.vertices())
        &&& self.texture.is_some() == self.rgb_info.coords.is_some()
        &&& self.normal_map.is_some() == self.norm_info.is_some()
        &&& self.metal_rough_map.is_some() == self.metal_rough.coords.is_some()
        &&& texture_ok(self.texture)
        &&& texture_ok(self.normal_map)
        &&& texture_ok(self.metal_rough_map)
        &&& forall|k: int|
            0 <= k < self.indices@.len() ==> in_range(#[trigger] self.indices@[k], self.vertices())
    }

    /// Whether the group is consistent.
    pub fn check(&self) -> (r: bool)
        ensures
            r == self.wf(),
    {
        let n = self.poses.len();
        if self.norms.len() != n || !covers_check(&self.tangents, n) || !covers_check(
            &self.rgb_info.coords,
            n,
        ) || !covers_check(&self.metal_rough.coords, n) {
            return false;
        }
        match &self.norm_info {
            Some(info) => {
                if info.coords.len() != n {
                    return false;
                }
            },
            None => {},
        }
        if self.texture.is_some() != self.rgb_info.coords.is_some() || self.normal_map.is_some()
            != self.norm_info.is_some() || self.metal_rough_map.is_some()
            != self.metal_rough.coords.is_some() {
            return false;
        }
        if !texture_check(&self.texture) || !texture_check(&self.normal_map) || !texture_check(
            &self.metal_rough_map,
        ) {
            return false;
        }
        let mut v: usize = 0;
        while v < n
            invariant
                n == self.norms@.len(),
                0 <= v <= n,
                forall|j: int| 0 <= j < v ==> is_unit_spec(#[trigger] self.norms@[j]),
            decreases n - v,
        {
            if !is_unit(&self.norms[v]) {
                assert(!is_unit_spec(self.norms@[v as int]));
                return false;
            }
            v += 1;
        }
        let count = self.indices.len();
        let mut k: usize = 0;
        while k < count
            invariant
                count == self.indices@.len(),
                n == self.poses@.len(),
                self.normals_unit(),
                0 <= k <= count,
                forall|j: int| 0 <= j < k ==> in_range(#[trigger] self.indices@[j], n as nat),
            decreases count - k,
        {
            let t = self.indices[k];
            if t.a >= n || t.b >= n || t.c >= n {
                assert(!in_range(self.indices@[k as int], n as nat));
                return false;
            }
            k += 1;
        }
        true
    }
}

/// A mesh: its primitive groups in the order of the file.
#[derive(Debug)]
pub struct Mesh {
    pub groups: Vec<PrimitiveGroup>,
}

/// A triangle of the scene: the mesh, the primitive group of the mesh, and
/// the triangle of the group, each by position.
#[derive(Clone, Copy, Debug, PartialEq, Eq, Structural)]
pub struct TriangleKey {
    pub mesh: usize,
    pub group: usize,
    pub triangle: usize,
}

/// The key of triangle `triangle` of group `group` of mesh `mesh`.
pub open spec fn key_of(mesh: usize, group: int, triangle: int) -> TriangleKey {
    TriangleKey { mesh, group: group as usize, triangle: triangle as usize }
}

/// The keys of the triangles of one group, in order.
pub open spec fn group_keys(mesh: usize, group: usize, count: nat) -> Seq<TriangleKey> {
    Seq::new(count, |t: int| TriangleKey { mesh, group, triangle: t as usize })
}

/// The keys of the triangles of a mesh whose groups have `counts` triangles:
/// group by group, and within a group triangle by triangle.
pub open spec fn mesh_keys(mesh: usize, counts: Seq<nat>) -> Seq<TriangleKey>
    decreases counts.len(),
{
    if counts.len() == 0 {
        Seq::empty()
    } else {
        mesh_keys(mesh, counts.drop_last()) + group_keys(
            mesh,
            (counts.len() - 1) as usize,
            counts.last(),
        )
    }
}

/// Every key of a mesh names a triangle of the mesh, and every triangle of
/// the mesh has exactly one key: the keys decompose the mesh.
pub proof fn lemma_mesh_keys_decompose(mesh: usize, counts: Seq<nat>)
    requires
        counts.len() <= usize::MAX,
        forall|g: int| 0 <= g < counts.len() ==> #[trigger] counts[g] <= usize::MAX,
    ensures
        forall|i: int|
            0 <= i < mesh_keys(mesh, counts).len() ==> {
                let k = #[trigger] mesh_keys(mesh, counts)[i];
                k.mesh == mesh && k.group < counts.len() && k.triangle < counts[k.group as int]
            },
        forall|g: int, t: int|
            0 <= g < counts.len() && 0 <= t < counts[g] ==> mesh_keys(mesh, counts).contains(
                #[trigger] key_of(mesh, g, t),
            ),
        forall|i: int, j: int|
            0 <= i < j < mesh_keys(mesh, counts).len() ==> mesh_keys(mesh, counts)[i] != mesh_keys(
                mesh,
                counts,
            )[j],
    decreases counts.len(),
{
    if counts.len() > 0 {
        let head = counts.drop_last();
        let g_last = (counts.len() - 1) as usize;
        lemma_mesh_keys_decompose(mesh, head);
        let front = mesh_keys(mesh, head);
        let back = group_keys(mesh, g_last, counts.last());
        let all = mesh_keys(mesh, counts);
        assert(all == front + back);
        assert forall|i: int| 0 <= i < all.len() implies {
            let k = #[trigger] all[i];
            k.mesh == mesh && k.group < counts.len() && k.triangle < counts[k.group as int]
        } by {
            if i < front.len() {
                assert(all[i] == front[i]);
                assert(head[front[i].group as int] == counts[front[i].group as int]);
            } else {
                assert(all[i] == back[i - front.len()]);
            }
        }
        assert forall|g: int, t: int| 0 <= g < counts.len() && 0 <= t < counts[g] implies all.contains(
            #[trigger] key_of(mesh, g, t),
        ) by {
            let key = key_of(mesh, g, t);
            if g < head.len() {
                assert(head[g] == counts[g]);
                assert(front.contains(key));
                let i = choose|i: int| 0 <= i < front.len() && front[i] == key;
                assert(all[i] == key);
            } else {
                assert(back[t] == key);
                assert(all[front.len() + t] == key);
            }
        }
        assert forall|i: int, j: int| 0 <= i < j < all.len() implies all[i] != all[j] by {
            if j < front.len() {
                assert(all[i] == front[i] && all[j] == front[j]);
            } else if i < front.len() {
                assert(all[i] == front[i]);
                assert(all[j] == back[j - front.len()]);
                assert(front[i].group < head.len());
            } else {
                assert(all[i] == back[i - front.len()]);
                assert(all[j] == back[j - front.len()]);
            }
        }
    }
}

impl Mesh {
    /// Every group is consistent.
    pub open spec fn wf(&self) -> bool {
        forall|g: int| 0 <= g < self.groups@.len() ==> (#[trigger] self.groups@[g]).wf()
    }

    /// Number of triangles of each group.
    pub open spec fn counts(&self) -> Seq<nat> {
        self.groups@.map_values(|g: PrimitiveGroup| g.indices@.len())
    }

    /// Whether every group is consistent.
    pub fn check(&self) -> (r: bool)
        ensures
            r == self.wf(),
    {
        let n = self.groups.len();
        let mut g: usize = 0;
        while g < n
            invariant
                n == self.groups@.len(),
                0 <= g <= n,
                forall|k: int| 0 <= k < g ==> (#[trigger] self.groups@[k]).wf(),
            decreases n - g,
        {
            if !self.groups[g].check() {
                return false;
            }
            g += 1;
        }
        true
    }

    /// Whether the key names a triangle of this mesh whose corners are
    /// vertices of its group.
    pub open spec fn names(&self, key: TriangleKey) -> bool {
        &&& key.group < self.groups@.len()
        &&& key.triangle < self.groups@[key.group as int].indices@.len()
        &&& in_range(
            self.groups@[key.group as int].indices@[key.triangle as int],
            self.groups@[key.group as int].poses@.len(),
        )
    }

    /// The three corners of the triangle that the key names.
    pub open spec fn corners_of(&self, key: TriangleKey) -> Seq<Vec3> {
        let group = self.groups@[key.group as int];
        let t = group.indices@[key.triangle as int];
        seq![group.poses@[t.a as int], group.poses@[t.b as int], group.poses@[t.c as int]]
    }

    /// The corners of the listed triangles, three for each, in order.
    pub open spec fn corners(&self, keys: Seq<TriangleKey>) -> Seq<Vec3>
        decreases keys.len(),
    {
        if keys.len() == 0 {
            Seq::empty()
        } else {
            self.corners(keys.drop_last()) + self.corners_of(keys.last())
        }
    }

    /// The corners of the listed triangles of this mesh, three for each, in
    /// order; `None` where a key names no triangle of the mesh. The box around
    /// them is the bounding box of the triangles.
    pub fn corner_points(&self, keys: &Vec<TriangleKey>) -> (r: Option<Vec<Vec3>>)
        ensures
            match r {
                Some(points) => {
                    &&& forall|j: int| 0 <= j < keys@.len() ==> self.names(#[trigger] keys@[j])
                    &&& points@ == self.corners(keys@)
                },
                None => exists|j: int| 0 <= j < keys@.len() && !self.names(#[trigger] keys@[j]),
            },
    {
        let n = keys.len();
        let mut out: Vec<Vec3> = Vec::new();
        let mut j: usize = 0;
        assert(keys@.subrange(0, 0).len() == 0);
        while j < n
            invariant
                n == keys@.len(),
                0 <= j <= n,
                forall|i: int| 0 <= i < j ==> self.names(#[trigger] keys@[i]),
                out@ == self.corners(keys@.subrange(0, j as int)),
            decreases n - j,
        {
            let key = keys[j];
            if key.group >= self.groups.len() {
                assert(!self.names(keys@[j as int]));
                return None;
            }
            let group = &self.groups[key.group];
            if key.triangle >= group.indices.len() {
                assert(!self.names(keys@[j as int]));
                return None;
            }
            let t = group.indices[key.triangle];
            let count = group.poses.len();
            if t.a >= count || t.b >= count || t.c >= count {
                assert(!self.names(keys@[j as int]));
                return None;
            }
            proof {
                let grown = keys@.subrange(0, j + 1);
                assert(grown.drop_last() == keys@.subrange(0, j as int));
                assert(grown.last() == key);
            }
            let ghost before = out@;
            out.push(group.poses[t.a]);
            out.push(group.poses[t.b]);
            out.push(group.poses[t.c]);
            assert(out@ == before + self.corners_of(key));
            j += 1;
        }
        assert(keys@.subrange(0, n as int) == keys@);
        Some(out)
    }

    /// The mesh as a list of triangles: the key of every triangle, under the
    /// number `mesh_index` that the scene gives this mesh.
    pub fn decompose_to_elems(&self, mesh_index: usize) -> (r: Vec<TriangleKey>)
        ensures
            r@ == mesh_keys(mesh_index, self.counts()),
    {
        let n = self.groups.len();
        let mut out: Vec<TriangleKey> = Vec::new();
        let mut g: usize = 0;
        assert(self.counts().subrange(0, 0).len() == 0);
        while g < n
            invariant
                n == self.groups@.len(),
                0 <= g <= n,
                out@ == mesh_keys(mesh_index, self.counts().subrange(0, g as int)),
            decreases n - g,
        {
            let count = self.groups[g].indices.len();
            let ghost before = out@;
            let mut t: usize = 0;
            while t < count
                invariant
                    0 <= t <= count,
                    out@.len() == before.len() + t,
                    out@.subrange(0, before.len() as int) == before,
                    forall|k: int|
                        0 <= k < t ==> out@[before.len() + k] == group_keys(
                            mesh_index,
                            g,
                            count as nat,
                        )[k],
                decreases count - t,
            {
                out.push(TriangleKey { mesh: mesh_index, group: g, triangle: t });
                t += 1;
            }
            proof {
                let grown = self.counts().subrange(0, g + 1);
                assert(grown.drop_last() == self.counts().subrange(0, g as int));
                assert(grown.last() == count);
                assert(grown.len() - 1 == g);
                assert(out@ =~= before + group_keys(mesh_index, g, count as nat));
            }
            g += 1;
        }
        assert(self.counts().subrange(0, n as int) == self.counts());
        out
    }
}

} // verus!
