use path_tracer::bindings::{bind_groups, BindingKind, BindingSlot, BufferRole};
use path_tracer::chunks::{pack_meshes, plan_chunks, MeshSlot};
use path_tracer::gpu::{
    accumulator_words, buffer_bytes, check_device_limits, decode_readback, pack_counted, GpuError,
    GpuSession, GPU_NUM_MESH_BUFFERS, MESH_CHUNK_WORDS, REQUIRED_BUFFER_BYTES,
};
use path_tracer::config::{RadianceInfo, RenderInfo};
use path_tracer::pipeline::PassLoop;
use path_tracer::scalar::Scalar;
use path_tracer::target::RenderTarget;

fn w(x: f32) -> u32 {
    x.to_bits()
}

#[test]
fn pack_counted_starts_with_the_count() {
    let records = vec![vec![w(1.5), w(2.5)], vec![w(-1.0)], vec![], vec![w(7.0), w(8.0), w(9.0)]];
    assert_eq!(
        pack_counted(&records),
        vec![w(4.0), w(1.5), w(2.5), w(-1.0), w(7.0), w(8.0), w(9.0)]
    );
}

#[test]
fn pack_counted_of_nothing_is_not_empty() {
    assert_eq!(pack_counted(&vec![]), vec![w(0.0)]);
}

#[test]
fn buffer_bytes_is_the_memory_image() {
    let words = vec![w(1.0), 0x0102_0304, w(-2.5)];
    let mut expected = Vec::new();
    for word in &words {
        expected.extend_from_slice(&word.to_ne_bytes());
    }
    assert_eq!(buffer_bytes(&words), expected);
    assert_eq!(buffer_bytes(&vec![]), Vec::<u8>::new());
}

#[test]
fn buffer_bytes_agrees_with_the_cast_of_floats() {
    let floats = [0.25f32, 3.0, -7.5];
    let words: Vec<u32> = floats.iter().map(|x| x.to_bits()).collect();
    let cast: &[u8] = bytemuck::cast_slice(&floats);
    assert_eq!(buffer_bytes(&words), cast.to_vec());
}

#[test]
fn decode_readback_regroups_the_bytes() {
    let floats: Vec<f32> = (0..8).map(|i| i as f32 * 0.5).collect();
    let bytes: Vec<u8> = floats.iter().flat_map(|x| x.to_ne_bytes()).collect();
    let words = decode_readback(&bytes, 2).unwrap();
    let back: Vec<f32> = words.iter().map(|b| f32::from_bits(*b)).collect();
    assert_eq!(back, floats);
}

#[test]
fn decode_readback_refuses_the_wrong_size() {
    assert_eq!(decode_readback(&vec![0u8; 31], 2), Err(GpuError::ReadbackSize));
    assert_eq!(decode_readback(&vec![0u8; 32], 3), Err(GpuError::ReadbackSize));
    assert_eq!(decode_readback(&vec![0u8; 32], usize::MAX), Err(GpuError::ReadbackSize));
    assert_eq!(decode_readback(&vec![], 0), Ok(vec![]));
}

#[test]
fn buffer_bytes_and_readback_round_trip() {
    let words: Vec<u32> = (0..16).map(|i| 0x0101_0101u32.wrapping_mul(i) ^ 0xDEAD_BEEF).collect();
    assert_eq!(decode_readback(&buffer_bytes(&words), 4), Ok(words));
}

#[test]
fn accumulator_starts_from_the_picture() {
    let mut target = RenderTarget::new(1, 1).unwrap();
    assert_eq!(accumulator_words(&target), vec![w(0.0); 4]);
    assert!(target.publish(&vec![1, 128, 200], 3));
    assert_eq!(accumulator_words(&target), vec![w(1.0), w(128.0), w(200.0), w(255.0)]);
}

#[test]
fn session_follows_the_order_of_a_batch() {
    let mut session = GpuSession::new();
    assert_eq!(session, GpuSession { has_pipeline: false, has_commands: false });
    session.create_compute_pipeline();
    assert_eq!(session, GpuSession { has_pipeline: true, has_commands: false });
    session.dispatch_compute_pipeline();
    assert_eq!(session, GpuSession { has_pipeline: true, has_commands: true });
    session.submit_compute_pipeline();
    assert_eq!(session, GpuSession { has_pipeline: true, has_commands: false });
    session.block_and_get_single_result();
    assert_eq!(session, GpuSession::new());
}

#[test]
fn session_keeps_waiting_commands_through_a_read_back() {
    let mut session = GpuSession::new();
    session.create_compute_pipeline();
    session.dispatch_compute_pipeline();
    session.block_and_get_single_result();
    assert_eq!(session, GpuSession { has_pipeline: false, has_commands: true });
    session.create_compute_pipeline();
    assert_eq!(session, GpuSession { has_pipeline: true, has_commands: true });
    session.submit_compute_pipeline();
    assert_eq!(session, GpuSession { has_pipeline: true, has_commands: false });
}

#[test]
fn two_batches_take_two_dispatches_and_two_readbacks() {
    let info = RenderInfo {
        width: 64,
        height: 64,
        samps_per_pix: 4,
        rad_info: RadianceInfo {
            max_depth: 4,
            rr_start_depth: 2,
            rr_survival: Scalar::from_bits(0.9f32.to_bits()),
            dls_enabled: false,
        },
        kd_tree_depth: 8,
        use_gpu: Some(true),
        animation: false,
        framerate: None,
        gpu_render_batch: Some(2),
        anim_pipeline_depth: None,
    };
    let plan = info.validate().unwrap();
    assert_eq!((plan.workgroups_x, plan.workgroups_y), (8, 8));
    let mut passes = PassLoop::new(plan.passes, plan.samples_per_pass);
    let mut session = GpuSession::new();
    let (mut dispatches, mut readbacks) = (0, 0);
    let batch_means = [[2.0f32; 4], [6.0f32; 4]];
    let mut mean = [0.0f32; 4];
    while let Some(weight) = passes.next_pass() {
        assert!(!session.has_pipeline);
        session.create_compute_pipeline();
        session.dispatch_compute_pipeline();
        session.submit_compute_pipeline();
        dispatches += 1;
        assert!(session.has_pipeline);
        session.block_and_get_single_result();
        readbacks += 1;
        for (m, r) in mean.iter_mut().zip(batch_means[weight as usize]) {
            *m = (r + *m * weight as f32) / (weight as f32 + 1.0);
        }
        assert!(passes.finish_pass());
    }
    assert_eq!((dispatches, readbacks), (2, 2));
    assert_eq!(mean, [4.0f32; 4]);
}

#[test]
fn plan_chunks_is_first_fit() {
    let slots = plan_chunks(&vec![4, 5, 3, 2, 6], 3, 10).unwrap();
    assert_eq!(
        slots,
        vec![
            MeshSlot { chunk: 0, offset: 1 },
            MeshSlot { chunk: 0, offset: 5 },
            MeshSlot { chunk: 1, offset: 1 },
            MeshSlot { chunk: 1, offset: 4 },
            MeshSlot { chunk: 2, offset: 1 },
        ]
    );
}

#[test]
fn plan_chunks_goes_back_to_an_earlier_chunk_with_room() {
    let slots = plan_chunks(&vec![6, 7, 3], 2, 10).unwrap();
    assert_eq!(slots[2], MeshSlot { chunk: 0, offset: 7 });
}

#[test]
fn plan_chunks_fails_at_the_first_mesh_for_which_the_chunks_ran_out() {
    assert_eq!(plan_chunks(&vec![9, 9, 9], 2, 10), Err(GpuError::NoRoom(2)));
    assert_eq!(plan_chunks(&vec![4, 4, 4, 4, 4], 2, 10), Err(GpuError::NoRoom(4)));
    assert_eq!(plan_chunks(&vec![1], 0, 10), Err(GpuError::NoRoom(0)));
    assert_eq!(plan_chunks(&vec![], 0, 10), Ok(vec![]));
    assert_eq!(plan_chunks(&vec![9], 1, 10), Ok(vec![MeshSlot { chunk: 0, offset: 1 }]));
    assert_eq!(plan_chunks(&vec![0], 1, 1), Ok(vec![MeshSlot { chunk: 0, offset: 1 }]));
}

#[test]
fn plan_chunks_runs_out_only_when_every_chunk_is_in_use() {
    // a mesh that fits a chunk of its own is refused only with every chunk
    // holding a mesh already
    for chunks in 1..5usize {
        let sizes: Vec<usize> = (0..12).map(|i| 3 + (i * 5) % 7).collect();
        match plan_chunks(&sizes, chunks, 10) {
            Ok(slots) => assert_eq!(slots.len(), sizes.len()),
            Err(GpuError::NoRoom(j)) => {
                let placed = plan_chunks(&sizes[..j].to_vec(), chunks, 10).unwrap();
                for c in 0..chunks {
                    assert!(placed.iter().any(|slot| slot.chunk == c));
                }
            },
            Err(other) => panic!("{other:?}"),
        }
    }
}

#[test]
fn pack_meshes_copies_each_mesh_to_its_slot() {
    let meshes = vec![vec![11, 12, 13, 14], vec![21, 22, 23, 24, 25], vec![31, 32, 33], vec![41]];
    let (chunks, slots) = pack_meshes(&meshes, 3, 10).unwrap();
    assert_eq!(chunks.len(), 3);
    assert_eq!(chunks[0], vec![w(2.0), 11, 12, 13, 14, 21, 22, 23, 24, 25]);
    assert_eq!(chunks[1], vec![w(2.0), 31, 32, 33, 41]);
    assert_eq!(chunks[2], vec![w(0.0)]);
    assert_eq!(slots[3], MeshSlot { chunk: 1, offset: 4 });
    for (mesh, slot) in meshes.iter().zip(&slots) {
        assert_eq!(&chunks[slot.chunk][slot.offset..slot.offset + mesh.len()], &mesh[..]);
    }
}

#[test]
fn pack_meshes_keeps_every_chunk_within_capacity() {
    let meshes: Vec<Vec<u32>> = (0..20).map(|i| vec![i; (i as usize * 7) % 9 + 1]).collect();
    let (chunks, slots) = pack_meshes(&meshes, GPU_NUM_MESH_BUFFERS, 40).unwrap();
    assert_eq!(chunks.len(), GPU_NUM_MESH_BUFFERS);
    for chunk in &chunks {
        assert!(chunk.len() <= 40);
    }
    for (c, chunk) in chunks.iter().enumerate() {
        let held = slots.iter().filter(|s| s.chunk == c).count();
        assert_eq!(chunk[0], w(held as f32));
    }
}

#[test]
fn pack_meshes_reports_the_mesh_without_room() {
    let meshes = vec![vec![1; 9], vec![2; 9], vec![3; 2]];
    assert_eq!(pack_meshes(&meshes, 2, 10).err(), Some(GpuError::NoRoom(2)));
}

#[test]
fn mesh_chunks_hold_one_gibibyte() {
    assert_eq!(MESH_CHUNK_WORDS * 4, 1024 * 1024 * 1024);
    assert_eq!(GPU_NUM_MESH_BUFFERS, 4);
}

#[test]
fn bind_groups_follow_the_device_program() {
    let groups = bind_groups(4);
    let slot = |binding, kind, buffer| BindingSlot { binding, kind, buffer };
    let ro = BindingKind::StorageReadOnly;
    assert_eq!(groups.len(), 4);
    assert_eq!(
        groups[0],
        vec![
            slot(0, BindingKind::Uniform, BufferRole::Camera),
            slot(1, BindingKind::Uniform, BufferRole::RenderInfo),
        ]
    );
    assert_eq!(groups[1], vec![slot(0, BindingKind::StorageReadWrite, BufferRole::RenderTarget)]);
    assert_eq!(
        groups[2],
        vec![
            slot(0, ro, BufferRole::MeshChunk(0)),
            slot(1, ro, BufferRole::MeshChunk(1)),
            slot(2, ro, BufferRole::MeshChunk(2)),
            slot(3, ro, BufferRole::MeshChunk(3)),
            slot(4, ro, BufferRole::MeshTriangles),
        ]
    );
    assert_eq!(
        groups[3],
        vec![
            slot(0, ro, BufferRole::Spheres),
            slot(1, ro, BufferRole::CubeMaps),
            slot(2, ro, BufferRole::FreeTriangles),
        ]
    );
}

#[test]
fn bind_groups_without_mesh_chunks_still_bind_the_triangles() {
    let groups = bind_groups(0);
    assert_eq!(
        groups[2],
        vec![BindingSlot {
            binding: 0,
            kind: BindingKind::StorageReadOnly,
            buffer: BufferRole::MeshTriangles
        }]
    );
}

#[test]
fn device_must_take_a_chunk_of_one_gibibyte() {
    let gib = 1024 * 1024 * 1024;
    assert_eq!(REQUIRED_BUFFER_BYTES, gib);
    assert_eq!(check_device_limits(gib, gib), Ok(()));
    assert_eq!(check_device_limits(u64::MAX, 2 * gib), Ok(()));
    assert_eq!(check_device_limits(gib - 1, gib), Err(GpuError::LimitsInsufficient));
    assert_eq!(check_device_limits(gib, 128 * 1024 * 1024), Err(GpuError::LimitsInsufficient));
}
