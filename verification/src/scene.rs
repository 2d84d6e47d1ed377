//! The scene that is rendered: leaf elements and meshes, and the flat list of
//! renderables that a frame is traced against.

use vstd::prelude::*;
use crate::members::{FreeTriangle, MemberTypes, Sphere, VecInto};
use crate::mesh::{mesh_keys, Mesh, TriangleKey};
use crate::norm::{is_unit, is_unit_spec};
use crate::scalar::Vec3;
use crate::texture::Texture;

verus! {

/// The six faces of a sky box.
#[derive(Debug)]
pub struct CubeFaces {
    pub neg_z: Texture,
    pub pos_z: Texture,
    pub neg_x: Texture,
    pub pos_x: Texture,
    pub neg_y: Texture,
    pub pos_y: Texture,
}

/// A primitive that is hit-tested as it is.
#[derive(Debug)]
pub enum Element {
    Sphere(Sphere),
    FreeTriangle(FreeTriangle),
    DistantCubeMap(CubeFaces),
}

/// A member of a scene: a leaf element, or a group that decomposes into
/// triangles.
#[derive(Debug)]
pub enum Member {
    Elem(Element),
    Grp(Mesh),
}

/// What was loaded or computed for a member of the scene description.
#[derive(Debug)]
pub enum Loaded {
    /// Nothing: a sphere is taken as it is.
    Plain,
    /// The normal of a free triangle, scaled to unit length.
    UnitNormal(Vec3),
    /// The face images of a sky box.
    Faces(CubeFaces),
    /// The meshes of a model, scaled and moved.
    Meshes(Vec<Mesh>),
}

/// Why a scene could not be put together.
#[derive(Clone, Copy, Debug, PartialEq, Eq, Structural)]
pub enum SceneError {
    /// There is not one loaded item per member.
    AssetCount,
    /// At this position the loaded item is not of the member's kind.
    AssetKind(usize),
    /// At this position the normal loaded for a free triangle is not of unit
    /// length.
    NormalNotUnit(usize),
    /// At this position a mesh loaded for a model is not consistent (see
    /// [`Mesh::wf`]).
    MeshBroken(usize),
}

/// The meshes as groups, in order.
pub open spec fn as_groups(meshes: Seq<Mesh>) -> Seq<Member> {
    meshes.map_values(|m: Mesh| Member::Grp(m))
}

/// Whether what was loaded is of the member's kind.
pub open spec fn same_kind(member: MemberTypes, loaded: Loaded) -> bool {
    match (member, loaded) {
        (MemberTypes::Sphere(_), Loaded::Plain) => true,
        (MemberTypes::FreeTriangle(_), Loaded::UnitNormal(_)) => true,
        (MemberTypes::DistantCubeMap(_), Loaded::Faces(_)) => true,
        (MemberTypes::Model(_), Loaded::Meshes(_)) => true,
        _ => false,
    }
}

/// Whether every mesh of the list is consistent.
pub open spec fn meshes_wf(meshes: Seq<Mesh>) -> bool {
    forall|i: int| 0 <= i < meshes.len() ==> (#[trigger] meshes[i]).wf()
}

/// Whether a member of a scene is sound: the normal of a free triangle is of
/// unit length, and a mesh is consistent, its normals of unit length among
/// the rest.
pub open spec fn member_wf(member: Member) -> bool {
    match member {
        Member::Elem(Element::FreeTriangle(t)) => is_unit_spec(t.norm),
        Member::Elem(_) => true,
        Member::Grp(mesh) => mesh.wf(),
    }
}

/// Whether every normal that the scene stores is of unit length, and every
/// mesh of it consistent.
pub open spec fn normals_unit(scene: Seq<Member>) -> bool {
    forall|k: int| 0 <= k < scene.len() ==> member_wf(#[trigger] scene[k])
}

/// The scene members that one member of the description becomes, or `None`
/// where what was loaded is not of its kind, is a normal that is not of unit
/// length, or holds a mesh that is not consistent.
pub open spec fn parts(member: MemberTypes, loaded: Loaded) -> Option<Seq<Member>> {
    match (member, loaded) {
        (MemberTypes::Sphere(s), Loaded::Plain) => Some(seq![Member::Elem(Element::Sphere(s))]),
        (MemberTypes::FreeTriangle(t), Loaded::UnitNormal(n)) => if is_unit_spec(n) {
            Some(seq![Member::Elem(Element::FreeTriangle(FreeTriangle { norm: n, ..t }))])
        } else {
            None
        },
        (MemberTypes::DistantCubeMap(_), Loaded::Faces(f)) => Some(
            seq![Member::Elem(Element::DistantCubeMap(f))],
        ),
        (MemberTypes::Model(_), Loaded::Meshes(ms)) => if meshes_wf(ms@) {
            Some(as_groups(ms@))
        } else {
            None
        },
        _ => None,
    }
}

/// The scene of a description: the parts of its members, in order.
pub open spec fn members_of(members: Seq<MemberTypes>, loaded: Seq<Loaded>) -> Option<Seq<Member>>
    decreases members.len(),
{
    if members.len() == 0 {
        Some(Seq::empty())
    } else {
        match (
            members_of(members.drop_last(), loaded.drop_last()),
            parts(members.last(), loaded.last()),
        ) {
            (Some(head), Some(tail)) => Some(head + tail),
            _ => None,
        }
    }
}

fn take_member(list: &mut Vec<MemberTypes>, j: usize) -> (r: MemberTypes)
    requires
        j < old(list)@.len(),
    ensures
        r == old(list)@[j as int],
        final(list)@.len() == old(list)@.len(),
        forall|k: int| 0 <= k < old(list)@.len() && k != j ==> final(list)@[k] == old(list)@[k],
{
    let mut item = MemberTypes::DistantCubeMap(
        crate::members::DistantCubeMap {
            neg_z: String::new(),
            pos_z: String::new(),
            neg_x: String::new(),
            pos_x: String::new(),
            neg_y: String::new(),
            pos_y: String::new(),
        },
    );
    core::mem::swap(&mut list[j], &mut item);
    item
}

fn take_loaded(list: &mut Vec<Loaded>, j: usize) -> (r: Loaded)
    requires
        j < old(list)@.len(),
    ensures
        r == old(list)@[j as int],
        final(list)@.len() == old(list)@.len(),
        forall|k: int| 0 <= k < old(list)@.len() && k != j ==> final(list)@[k] == old(list)@[k],
{
    let mut item = Loaded::Plain;
    core::mem::swap(&mut list[j], &mut item);
    item
}

fn take_mesh(list: &mut Vec<Mesh>, j: usize) -> (r: Mesh)
    requires
        j < old(list)@.len(),
    ensures
        r == old(list)@[j as int],
        final(list)@.len() == old(list)@.len(),
        forall|k: int| 0 <= k < old(list)@.len() && k != j ==> final(list)@[k] == old(list)@[k],
{
    let mut item = Mesh { groups: Vec::new() };
    core::mem::swap(&mut list[j], &mut item);
    item
}

/// What became of one member.
enum Pushed {
    Done,
    WrongKind,
    NotUnit,
    MeshBroken,
}

/// Appends the parts of one member to `out`, or leaves `out` as it was where
/// what was loaded is not of the member's kind or is no unit normal.
fn push_parts(out: &mut Vec<Member>, member: MemberTypes, loaded: Loaded) -> (r: Pushed)
    ensures
        r is Done <==> parts(member, loaded).is_some(),
        r is WrongKind <==> !same_kind(member, loaded),
        r is NotUnit ==> member is FreeTriangle,
        r is MeshBroken ==> member is Model,
        r is Done ==> final(out)@ == old(out)@ + parts(member, loaded).unwrap(),
        !(r is Done) ==> final(out)@ == old(out)@,
{
    match (member, loaded) {
        (MemberTypes::Sphere(s), Loaded::Plain) => {
            out.push(Member::Elem(Element::Sphere(s)));
            assert(out@ == old(out)@ + seq![Member::Elem(Element::Sphere(s))]);
            Pushed::Done
        },
        (MemberTypes::FreeTriangle(t), Loaded::UnitNormal(n)) => {
            if !is_unit(&n) {
                return Pushed::NotUnit;
            }
            let unit = FreeTriangle { verts: t.verts, norm: n, rgb: t.rgb, mat: t.mat };
            out.push(Member::Elem(Element::FreeTriangle(unit)));
            assert(out@ == old(out)@ + seq![Member::Elem(Element::FreeTriangle(unit))]);
            Pushed::Done
        },
        (MemberTypes::DistantCubeMap(_), Loaded::Faces(f)) => {
            out.push(Member::Elem(Element::DistantCubeMap(f)));
            assert(out@ == old(out)@ + seq![Member::Elem(Element::DistantCubeMap(f))]);
            Pushed::Done
        },
        (MemberTypes::Model(_), Loaded::Meshes(meshes)) => {
            let mut meshes = meshes;
            let ghost all = meshes@;
            let n = meshes.len();
            let mut i: usize = 0;
            while i < n
                invariant
                    n == meshes@.len(),
                    0 <= i <= n,
                    meshes@ == all,
                    out@ == old(out)@,
                    member is Model,
                    loaded matches Loaded::Meshes(given) && given@ == all,
                    forall|j: int| 0 <= j < i ==> (#[trigger] meshes@[j]).wf(),
                decreases n - i,
            {
                if !meshes[i].check() {
                    assert(!all[i as int].wf());
                    return Pushed::MeshBroken;
                }
                i += 1;
            }
            let mut k: usize = 0;
            while k < n
                invariant
                    n == all.len(),
                    meshes@.len() == n,
                    0 <= k <= n,
                    forall|i: int| k <= i < n ==> meshes@[i] == all[i],
                    out@ == old(out)@ + as_groups(all.subrange(0, k as int)),
                decreases n - k,
            {
                let mesh = take_mesh(&mut meshes, k);
                out.push(Member::Grp(mesh));
                assert(as_groups(all.subrange(0, k + 1)) == as_groups(
                    all.subrange(0, k as int),
                ).push(Member::Grp(mesh)));
                k += 1;
            }
            assert(all.subrange(0, n as int) == all);
            Pushed::Done
        },
        _ => Pushed::WrongKind,
    }
}

/// Every normal that a scene stores is of unit length: the normal of each
/// free triangle, and each vertex normal of each mesh.
pub proof fn lemma_normals_unit(members: Seq<MemberTypes>, loaded: Seq<Loaded>)
    requires
        members_of(members, loaded).is_some(),
    ensures
        normals_unit(members_of(members, loaded).unwrap()),
    decreases members.len(),
{
    if members.len() > 0 {
        lemma_normals_unit(members.drop_last(), loaded.drop_last());
        let head = members_of(members.drop_last(), loaded.drop_last()).unwrap();
        let tail = parts(members.last(), loaded.last()).unwrap();
        let scene = members_of(members, loaded).unwrap();
        assert(scene == head + tail);
        assert forall|k: int| 0 <= k < scene.len() implies member_wf(#[trigger] scene[k]) by {
            if k < head.len() {
                assert(scene[k] == head[k]);
            } else {
                let i = k - head.len();
                assert(scene[k] == tail[i]);
                match (members.last(), loaded.last()) {
                    (MemberTypes::Model(_), Loaded::Meshes(ms)) => {
                        assert(tail[i] == Member::Grp(ms@[i]));
                        assert(ms@[i].wf());
                    },
                    _ => {},
                }
            }
        }
    }
}

/// Builds the scene from its description and from what was loaded for each
/// member: a sphere as it is, a free triangle with its unit normal, a sky box
/// with its faces, a model as its meshes, each a group.
///
/// Nothing enters a scene with a normal that is not of unit length: a normal
/// loaded for a free triangle is refused unless it is, and so is a mesh that
/// is not consistent.
pub fn into_members(members: Vec<MemberTypes>, loaded: Vec<Loaded>) -> (r: Result<
    Vec<Member>,
    SceneError,
>)
    ensures
        match r {
            Ok(scene) => loaded@.len() == members@.len() && members_of(members@, loaded@) == Some(
                scene@,
            ),
            Err(SceneError::AssetCount) => loaded@.len() != members@.len(),
            Err(SceneError::AssetKind(j)) => {
                &&& loaded@.len() == members@.len()
                &&& j < members@.len()
                &&& members_of(members@.subrange(0, j as int), loaded@.subrange(0, j as int))
                    .is_some()
                &&& !same_kind(members@[j as int], loaded@[j as int])
            },
            Err(SceneError::NormalNotUnit(j)) => {
                &&& loaded@.len() == members@.len()
                &&& j < members@.len()
                &&& members_of(members@.subrange(0, j as int), loaded@.subrange(0, j as int))
                    .is_some()
                &&& members@[j as int] is FreeTriangle
                &&& loaded@[j as int] matches Loaded::UnitNormal(n)
                &&& !is_unit_spec(n)
            },
            Err(SceneError::MeshBroken(j)) => {
                &&& loaded@.len() == members@.len()
                &&& j < members@.len()
                &&& members_of(members@.subrange(0, j as int), loaded@.subrange(0, j as int))
                    .is_some()
                &&& members@[j as int] is Model
                &&& loaded@[j as int] matches Loaded::Meshes(ms)
                &&& !meshes_wf(ms@)
            },
        },
        r matches Ok(scene) ==> normals_unit(scene@),
{
    let ghost ms = members@;
    let ghost ls = loaded@;
    let mut rest = members;
    let mut assets = loaded;
    let n = rest.len();
    if assets.len() != n {
        return Err(SceneError::AssetCount);
    }
    let mut out: Vec<Member> = Vec::new();
    let mut j: usize = 0;
    assert(ms.subrange(0, 0).len() == 0);
    while j < n
        invariant
            ms == members@,
            ls == loaded@,
            n == ms.len(),
            n == ls.len(),
            rest@.len() == n,
            assets@.len() == n,
            0 <= j <= n,
            forall|i: int| j <= i < n ==> rest@[i] == ms[i] && assets@[i] == ls[i],
            members_of(ms.subrange(0, j as int), ls.subrange(0, j as int)) == Some(out@),
        decreases n - j,
    {
        let member = take_member(&mut rest, j);
        let item = take_loaded(&mut assets, j);
        proof {
            let m1 = ms.subrange(0, j + 1);
            let l1 = ls.subrange(0, j + 1);
            assert(m1.drop_last() == ms.subrange(0, j as int));
            assert(l1.drop_last() == ls.subrange(0, j as int));
            assert(m1.last() == member);
            assert(l1.last() == item);
        }
        match push_parts(&mut out, member, item) {
            Pushed::Done => {},
            Pushed::WrongKind => {
                return Err(SceneError::AssetKind(j));
            },
            Pushed::NotUnit => {
                return Err(SceneError::NormalNotUnit(j));
            },
            Pushed::MeshBroken => {
                return Err(SceneError::MeshBroken(j));
            },
        }
        j += 1;
    }
    assert(ms.subrange(0, n as int) == ms);
    assert(ls.subrange(0, n as int) == ls);
    proof {
        lemma_normals_unit(ms, ls);
    }
    Ok(out)
}

impl VecInto<MemberTypes> {
    /// Builds the scene from this description and from what was loaded for
    /// each of its members (see [`into_members`]).
    pub fn into_scene(self, loaded: Vec<Loaded>) -> (r: Result<Vec<Member>, SceneError>)
        ensures
            match r {
                Ok(scene) => loaded@.len() == self.0@.len() && members_of(self.0@, loaded@) == Some(
                    scene@,
                ),
                Err(SceneError::AssetCount) => loaded@.len() != self.0@.len(),
                Err(SceneError::AssetKind(j)) => {
                    &&& loaded@.len() == self.0@.len()
                    &&& j < self.0@.len()
                    &&& members_of(self.0@.subrange(0, j as int), loaded@.subrange(0, j as int))
                        .is_some()
                    &&& !same_kind(self.0@[j as int], loaded@[j as int])
                },
                Err(SceneError::NormalNotUnit(j)) => {
                    &&& loaded@.len() == self.0@.len()
                    &&& j < self.0@.len()
                    &&& members_of(self.0@.subrange(0, j as int), loaded@.subrange(0, j as int))
                        .is_some()
                    &&& self.0@[j as int] is FreeTriangle
                    &&& loaded@[j as int] matches Loaded::UnitNormal(n)
                    &&& !is_unit_spec(n)
                },
                Err(SceneError::MeshBroken(j)) => {
                    &&& loaded@.len() == self.0@.len()
                    &&& j < self.0@.len()
                    &&& members_of(self.0@.subrange(0, j as int), loaded@.subrange(0, j as int))
                        .is_some()
                    &&& self.0@[j as int] is Model
                    &&& loaded@[j as int] matches Loaded::Meshes(ms)
                    &&& !meshes_wf(ms@)
                },
            },
            r matches Ok(scene) ==> normals_unit(scene@),
    {
        into_members(self.0, loaded)
    }
}

/// Positions of the leaf elements among the members, in order.
pub open spec fn leaves(members: Seq<Member>) -> Seq<usize>
    decreases members.len(),
{
    if members.len() == 0 {
        Seq::empty()
    } else if members.last() is Elem {
        leaves(members.drop_last()).push((members.len() - 1) as usize)
    } else {
        leaves(members.drop_last())
    }
}

/// Number of groups among the members.
pub open spec fn group_count(members: Seq<Member>) -> nat
    decreases members.len(),
{
    if members.len() == 0 {
        0
    } else if members.last() is Grp {
        group_count(members.drop_last()) + 1
    } else {
        group_count(members.drop_last())
    }
}

/// The triangles of all groups: group after group in the order of the
/// members, each group under its number among the groups.
pub open spec fn scene_keys(members: Seq<Member>) -> Seq<TriangleKey>
    decreases members.len(),
{
    if members.len() == 0 {
        Seq::empty()
    } else {
        match members.last() {
            Member::Grp(mesh) => scene_keys(members.drop_last()) + mesh_keys(
                group_count(members.drop_last()) as usize,
                mesh.counts(),
            ),
            Member::Elem(_) => scene_keys(members.drop_last()),
        }
    }
}

/// There are no more groups than members.
pub proof fn lemma_group_count_bound(members: Seq<Member>)
    ensures
        group_count(members) <= members.len(),
    decreases members.len(),
{
    if members.len() > 0 {
        lemma_group_count_bound(members.drop_last());
    }
}

/// Splits a scene into its leaf elements, by position, and the triangles of
/// its groups. Groups are numbered from zero in the order of the members.
pub fn decompose_groups(members: &Vec<Member>) -> (r: (Vec<usize>, Vec<TriangleKey>))
    ensures
        r.0@ == leaves(members@),
        r.1@ == scene_keys(members@),
{
    let n = members.len();
    let mut pure_elems: Vec<usize> = Vec::new();
    let mut decomposed: Vec<TriangleKey> = Vec::new();
    let mut mesh_index: usize = 0;
    let mut j: usize = 0;
    assert(members@.subrange(0, 0).len() == 0);
    while j < n
        invariant
            n == members@.len(),
            0 <= j <= n,
            mesh_index == group_count(members@.subrange(0, j as int)),
            pure_elems@ == leaves(members@.subrange(0, j as int)),
            decomposed@ == scene_keys(members@.subrange(0, j as int)),
        decreases n - j,
    {
        proof {
            let grown = members@.subrange(0, j + 1);
            assert(grown.drop_last() == members@.subrange(0, j as int));
            assert(grown.last() == members@[j as int]);
            lemma_group_count_bound(members@.subrange(0, j as int));
        }
        match &members[j] {
            Member::Elem(_) => {
                pure_elems.push(j);
            },
            Member::Grp(mesh) => {
                let keys = mesh.decompose_to_elems(mesh_index);
                decomposed.extend_from_slice(keys.as_slice());
                mesh_index += 1;
            },
        }
        j += 1;
    }
    assert(members@.subrange(0, n as int) == members@);
    (pure_elems, decomposed)
}

/// Something that a ray is tested against.
#[derive(Clone, Copy, Debug, PartialEq, Eq, Structural)]
pub enum Renderable {
    /// The leaf element at this position among the members.
    Leaf(usize),
    /// A triangle of a group.
    MeshTriangle(TriangleKey),
}

/// The renderables of a scene: its leaf elements, then the triangles of its
/// groups.
pub open spec fn renderables_spec(members: Seq<Member>) -> Seq<Renderable> {
    leaves(members).map_values(|at: usize| Renderable::Leaf(at)) + scene_keys(
        members,
    ).map_values(|key: TriangleKey| Renderable::MeshTriangle(key))
}

/// Whether the renderable has a bounding box; a sky box, which is hit by
/// every ray, has none.
pub open spec fn is_bounded(members: Seq<Member>, r: Renderable) -> bool {
    match r {
        Renderable::Leaf(at) => !(0 <= at < members.len() && members[at as int]
            matches Member::Elem(Element::DistantCubeMap(_))),
        Renderable::MeshTriangle(_) => true,
    }
}

/// Positions in `list` of the renderables that are bounded, or of those that
/// are not, in order.
pub open spec fn picked(members: Seq<Member>, list: Seq<Renderable>, bounded: bool) -> Seq<usize>
    decreases list.len(),
{
    if list.len() == 0 {
        Seq::empty()
    } else if is_bounded(members, list.last()) == bounded {
        picked(members, list.drop_last(), bounded).push((list.len() - 1) as usize)
    } else {
        picked(members, list.drop_last(), bounded)
    }
}

/// Every position of the list is picked on exactly one side: the two sides
/// partition the renderables.
pub proof fn lemma_picked_partitions(members: Seq<Member>, list: Seq<Renderable>)
    requires
        list.len() <= usize::MAX,
    ensures
        picked(members, list, true).len() + picked(members, list, false).len() == list.len(),
        forall|k: int|
            0 <= k < list.len() ==> (picked(members, list, true).contains(k as usize)
                <==> is_bounded(members, #[trigger] list[k])),
        forall|k: int|
            0 <= k < list.len() ==> (picked(members, list, false).contains(k as usize)
                <==> !is_bounded(members, #[trigger] list[k])),
        forall|i: int|
            0 <= i < picked(members, list, true).len() ==> (#[trigger] picked(
                members,
                list,
                true,
            )[i]) < list.len(),
        forall|i: int|
            0 <= i < picked(members, list, false).len() ==> (#[trigger] picked(
                members,
                list,
                false,
            )[i]) < list.len(),
    decreases list.len(),
{
    if list.len() > 0 {
        let head = list.drop_last();
        let last = (list.len() - 1) as usize;
        lemma_picked_partitions(members, head);
        let yes = picked(members, list, true);
        let no = picked(members, list, false);
        let yes0 = picked(members, head, true);
        let no0 = picked(members, head, false);
        assert forall|k: int| 0 <= k < list.len() implies (yes.contains(k as usize) <==> is_bounded(
            members,
            #[trigger] list[k],
        )) && (no.contains(k as usize) <==> !is_bounded(members, list[k])) by {
            if k < head.len() {
                assert(head[k] == list[k]);
                if yes0.contains(k as usize) {
                    let i = choose|i: int| 0 <= i < yes0.len() && yes0[i] == k as usize;
                    assert(yes[i] == k as usize);
                }
                if no0.contains(k as usize) {
                    let i = choose|i: int| 0 <= i < no0.len() && no0[i] == k as usize;
                    assert(no[i] == k as usize);
                }
                if yes.contains(k as usize) {
                    let i = choose|i: int| 0 <= i < yes.len() && yes[i] == k as usize;
                    if i < yes0.len() {
                        assert(yes0[i] == k as usize);
                    }
                }
                if no.contains(k as usize) {
                    let i = choose|i: int| 0 <= i < no.len() && no[i] == k as usize;
                    if i < no0.len() {
                        assert(no0[i] == k as usize);
                    }
                }
            } else {
                if is_bounded(members, list.last()) {
                    assert(yes[yes.len() - 1] == last);
                    if no.contains(k as usize) {
                        let i = choose|i: int| 0 <= i < no.len() && no[i] == k as usize;
                        assert(no0[i] < head.len());
                    }
                } else {
                    assert(no[no.len() - 1] == last);
                    if yes.contains(k as usize) {
                        let i = choose|i: int| 0 <= i < yes.len() && yes[i] == k as usize;
                        assert(yes0[i] < head.len());
                    }
                }
            }
        }
    }
}

/// The renderables of a scene, from its decomposition.
pub fn renderables(pure_elems: &Vec<usize>, decomposed: &Vec<TriangleKey>) -> (r: Vec<Renderable>)
    ensures
        r@ == pure_elems@.map_values(|at: usize| Renderable::Leaf(at)) + decomposed@.map_values(
            |key: TriangleKey| Renderable::MeshTriangle(key),
        ),
{
    let mut out: Vec<Renderable> = Vec::new();
    let a = pure_elems.len();
    let mut i: usize = 0;
    while i < a
        invariant
            a == pure_elems@.len(),
            0 <= i <= a,
            out@ == pure_elems@.subrange(0, i as int).map_values(|at: usize| Renderable::Leaf(at)),
        decreases a - i,
    {
        out.push(Renderable::Leaf(pure_elems[i]));
        assert(out@ =~= pure_elems@.subrange(0, i + 1).map_values(
            |at: usize| Renderable::Leaf(at),
        ));
        i += 1;
    }
    assert(pure_elems@.subrange(0, a as int) == pure_elems@);
    let ghost front = out@;
    let b = decomposed.len();
    let mut k: usize = 0;
    while k < b
        invariant
            b == decomposed@.len(),
            0 <= k <= b,
            out@ == front + decomposed@.subrange(0, k as int).map_values(
                |key: TriangleKey| Renderable::MeshTriangle(key),
            ),
        decreases b - k,
    {
        out.push(Renderable::MeshTriangle(decomposed[k]));
        assert(out@ =~= front + decomposed@.subrange(0, k + 1).map_values(
            |key: TriangleKey| Renderable::MeshTriangle(key),
        ));
        k += 1;
    }
    assert(decomposed@.subrange(0, b as int) == decomposed@);
    out
}

/// Whether the renderable has a bounding box.
pub fn has_aabb(members: &Vec<Member>, r: &Renderable) -> (b: bool)
    ensures
        b == is_bounded(members@, *r),
{
    match r {
        Renderable::Leaf(at) => {
            if *at < members.len() {
                match &members[*at] {
                    Member::Elem(Element::DistantCubeMap(_)) => false,
                    _ => true,
                }
            } else {
                true
            }
        },
        Renderable::MeshTriangle(_) => true,
    }
}

/// Splits the renderables into those that are tested for every ray, having
/// no bounding box, and those that go into the spatial index. Both lists
/// hold positions in `list`, in order.
pub fn split_unconditional(members: &Vec<Member>, list: &Vec<Renderable>) -> (r: (
    Vec<usize>,
    Vec<usize>,
))
    ensures
        r.0@ == picked(members@, list@, false),
        r.1@ == picked(members@, list@, true),
{
    let n = list.len();
    let mut unconditional: Vec<usize> = Vec::new();
    let mut bounded: Vec<usize> = Vec::new();
    let mut i: usize = 0;
    assert(list@.subrange(0, 0).len() == 0);
    while i < n
        invariant
            n == list@.len(),
            0 <= i <= n,
            unconditional@ == picked(members@, list@.subrange(0, i as int), false),
            bounded@ == picked(members@, list@.subrange(0, i as int), true),
        decreases n - i,
    {
        proof {
            let grown = list@.subrange(0, i + 1);
            assert(grown.drop_last() == list@.subrange(0, i as int));
            assert(grown.last() == list@[i as int]);
        }
        if has_aabb(members, &list[i]) {
            bounded.push(i);
        } else {
            unconditional.push(i);
        }
        i += 1;
    }
    assert(list@.subrange(0, n as int) == list@);
    (unconditional, bounded)
}

} // verus!
