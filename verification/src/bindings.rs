//! The binding of buffers to the slots of the four bind groups.
//!
//! The device program reads its inputs by group and binding number, so the
//! host must bind every buffer exactly where this table says: group 0 holds
//! the two uniform blocks, group 1 the accumulator, group 2 the mesh chunks
//! followed by the mesh triangles, group 3 the three lists of primitives.

use vstd::prelude::*;

verus! {

/// How the device program may use a bound buffer.
#[derive(Clone, Copy, Debug, PartialEq, Eq, Structural)]
pub enum BindingKind {
    Uniform,
    StorageReadWrite,
    StorageReadOnly,
}

/// A buffer of the pipeline.
#[derive(Clone, Copy, Debug, PartialEq, Eq, Structural)]
pub enum BufferRole {
    Camera,
    RenderInfo,
    RenderTarget,
    /// The mesh chunk with this number.
    MeshChunk(u32),
    MeshTriangles,
    Spheres,
    CubeMaps,
    FreeTriangles,
}

/// One entry of a bind group.
#[derive(Clone, Copy, Debug, PartialEq, Eq, Structural)]
pub struct BindingSlot {
    pub binding: u32,
    pub kind: BindingKind,
    pub buffer: BufferRole,
}

/// Number of bind groups.
pub const BIND_GROUPS: usize = 4;

pub open spec fn uniform_group() -> Seq<BindingSlot> {
    seq![
        BindingSlot { binding: 0, kind: BindingKind::Uniform, buffer: BufferRole::Camera },
        BindingSlot { binding: 1, kind: BindingKind::Uniform, buffer: BufferRole::RenderInfo },
    ]
}

pub open spec fn target_group() -> Seq<BindingSlot> {
    seq![
        BindingSlot {
            binding: 0,
            kind: BindingKind::StorageReadWrite,
            buffer: BufferRole::RenderTarget,
        },
    ]
}

/// The chunks at bindings `0..chunks`, then the mesh triangles.
pub open spec fn mesh_group(chunks: nat) -> Seq<BindingSlot> {
    Seq::new(
        chunks + 1,
        |i: int|
            BindingSlot {
                binding: i as u32,
                kind: BindingKind::StorageReadOnly,
                buffer: if i < chunks {
                    BufferRole::MeshChunk(i as u32)
                } else {
                    BufferRole::MeshTriangles
                },
            },
    )
}

pub open spec fn primitive_group() -> Seq<BindingSlot> {
    seq![
        BindingSlot {
            binding: 0,
            kind: BindingKind::StorageReadOnly,
            buffer: BufferRole::Spheres,
        },
        BindingSlot {
            binding: 1,
            kind: BindingKind::StorageReadOnly,
            buffer: BufferRole::CubeMaps,
        },
        BindingSlot {
            binding: 2,
            kind: BindingKind::StorageReadOnly,
            buffer: BufferRole::FreeTriangles,
        },
    ]
}

/// The four bind groups of a pipeline with `chunks` mesh chunks.
pub open spec fn bind_groups_spec(chunks: nat) -> Seq<Seq<BindingSlot>> {
    seq![uniform_group(), target_group(), mesh_group(chunks), primitive_group()]
}

/// The model of a list of bind groups.
pub open spec fn groups_view(groups: Seq<Vec<BindingSlot>>) -> Seq<Seq<BindingSlot>> {
    groups.map_values(|g: Vec<BindingSlot>| g@)
}

/// The four bind groups of a pipeline with `chunks` mesh chunks.
pub fn bind_groups(chunks: u32) -> (r: Vec<Vec<BindingSlot>>)
    requires
        chunks < u32::MAX,
    ensures
        groups_view(r@) == bind_groups_spec(chunks as nat),
{
    let mut uniforms: Vec<BindingSlot> = Vec::new();
    uniforms.push(
        BindingSlot { binding: 0, kind: BindingKind::Uniform, buffer: BufferRole::Camera },
    );
    uniforms.push(
        BindingSlot { binding: 1, kind: BindingKind::Uniform, buffer: BufferRole::RenderInfo },
    );
    let mut target: Vec<BindingSlot> = Vec::new();
    target.push(
        BindingSlot {
            binding: 0,
            kind: BindingKind::StorageReadWrite,
            buffer: BufferRole::RenderTarget,
        },
    );
    let mut meshes: Vec<BindingSlot> = Vec::new();
    let mut i: u32 = 0;
    while i < chunks
        invariant
            0 <= i <= chunks < u32::MAX,
            meshes@.len() == i,
            forall|k: int| 0 <= k < i ==> meshes@[k] == mesh_group(chunks as nat)[k],
        decreases chunks - i,
    {
        meshes.push(
            BindingSlot {
                binding: i,
                kind: BindingKind::StorageReadOnly,
                buffer: BufferRole::MeshChunk(i),
            },
        );
        i += 1;
    }
    meshes.push(
        BindingSlot {
            binding: chunks,
            kind: BindingKind::StorageReadOnly,
            buffer: BufferRole::MeshTriangles,
        },
    );
    let mut primitives: Vec<BindingSlot> = Vec::new();
    primitives.push(
        BindingSlot {
            binding: 0,
            kind: BindingKind::StorageReadOnly,
            buffer: BufferRole::Spheres,
        },
    );
    primitives.push(
        BindingSlot {
            binding: 1,
            kind: BindingKind::StorageReadOnly,
            buffer: BufferRole::CubeMaps,
        },
    );
    primitives.push(
        BindingSlot {
            binding: 2,
            kind: BindingKind::StorageReadOnly,
            buffer: BufferRole::FreeTriangles,
        },
    );
    assert(uniforms@ =~= uniform_group());
    assert(target@ =~= target_group());
    assert(meshes@ =~= mesh_group(chunks as nat));
    assert(primitives@ =~= primitive_group());
    let mut groups: Vec<Vec<BindingSlot>> = Vec::new();
    groups.push(uniforms);
    groups.push(target);
    groups.push(meshes);
    groups.push(primitives);
    assert(groups_view(groups@) =~= bind_groups_spec(chunks as nat));
    groups
}

/// Within every group the bindings are numbered from zero without a gap, and
/// no buffer is bound twice.
pub proof fn lemma_bindings_are_dense(chunks: nat)
    requires
        chunks < u32::MAX,
    ensures
        bind_groups_spec(chunks).len() == BIND_GROUPS,
        forall|g: int, i: int|
            0 <= g < 4 && 0 <= i < bind_groups_spec(chunks)[g].len() ==> (
            #[trigger] bind_groups_spec(chunks)[g][i]).binding == i,
        forall|g: int, i: int, h: int, k: int|
            0 <= g < 4 && 0 <= h < 4 && 0 <= i < bind_groups_spec(chunks)[g].len() && 0 <= k
                < bind_groups_spec(chunks)[h].len() && (#[trigger] bind_groups_spec(
                chunks,
            )[g][i]).buffer == (#[trigger] bind_groups_spec(chunks)[h][k]).buffer ==> g == h && i
                == k,
{
}

} // verus!
