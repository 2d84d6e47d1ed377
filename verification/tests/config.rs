use path_tracer::config::{ConfigError, RadianceInfo, RenderInfo, RenderPlan};
use path_tracer::scalar::Scalar;

fn base() -> RenderInfo {
    RenderInfo {
        width: 64,
        height: 48,
        samps_per_pix: 4,
        rad_info: RadianceInfo {
            max_depth: 4,
            rr_start_depth: 2,
            rr_survival: Scalar::from_bits(0.9f32.to_bits()),
            dls_enabled: false,
        },
        kd_tree_depth: 8,
        use_gpu: None,
        animation: false,
        framerate: None,
        gpu_render_batch: None,
        anim_pipeline_depth: None,
    }
}

fn gpu() -> RenderInfo {
    RenderInfo { use_gpu: Some(true), gpu_render_batch: Some(2), ..base() }
}

#[test]
fn validate_plans_one_pass_per_sample_on_the_cpu() {
    assert_eq!(
        base().validate(),
        Ok(RenderPlan {
            width: 64,
            height: 48,
            on_gpu: false,
            passes: 4,
            samples_per_pass: 1,
            workgroups_x: 0,
            workgroups_y: 0,
        })
    );
    assert_eq!(RenderInfo { use_gpu: Some(false), ..base() }.validate(), base().validate());
    assert!(!base().on_gpu());
    assert!(gpu().on_gpu());
}

#[test]
fn validate_plans_batches_on_the_gpu() {
    let info = RenderInfo { width: 64, height: 64, ..gpu() };
    assert_eq!(
        info.validate(),
        Ok(RenderPlan {
            width: 64,
            height: 64,
            on_gpu: true,
            passes: 2,
            samples_per_pass: 2,
            workgroups_x: 8,
            workgroups_y: 8,
        })
    );
}

#[test]
fn validate_accepts_an_empty_picture() {
    let plan = RenderInfo { width: 0, height: 0, ..base() }.validate().unwrap();
    assert_eq!((plan.width, plan.height), (0, 0));
}

#[test]
fn validate_refuses_negative_dimensions() {
    assert_eq!(RenderInfo { width: -1, ..base() }.validate(), Err(ConfigError::NegativeDimension));
    assert_eq!(RenderInfo { height: -8, ..base() }.validate(), Err(ConfigError::NegativeDimension));
}

#[test]
fn validate_refuses_too_many_pixels() {
    let info = RenderInfo { width: 65_536, height: 32_768, ..base() };
    assert_eq!(info.validate(), Err(ConfigError::TargetTooLarge));
    let info = RenderInfo { width: i32::MAX, height: 1, ..base() };
    assert!(info.validate().is_ok());
}

#[test]
fn validate_refuses_less_than_one_sample() {
    assert_eq!(RenderInfo { samps_per_pix: 0, ..base() }.validate(), Err(ConfigError::SampleCount));
    assert_eq!(RenderInfo { samps_per_pix: -4, ..base() }.validate(), Err(ConfigError::SampleCount));
}

#[test]
fn validate_refuses_gpu_dimensions_off_the_workgroup_grid() {
    assert_eq!(
        RenderInfo { width: 60, ..gpu() }.validate(),
        Err(ConfigError::DimensionNotMultipleOfEight)
    );
    assert_eq!(
        RenderInfo { height: 47, ..gpu() }.validate(),
        Err(ConfigError::DimensionNotMultipleOfEight)
    );
    assert!(RenderInfo { width: 60, ..base() }.validate().is_ok());
}

#[test]
fn validate_refuses_a_missing_or_bad_batch() {
    assert_eq!(
        RenderInfo { gpu_render_batch: None, ..gpu() }.validate(),
        Err(ConfigError::MissingBatch)
    );
    assert_eq!(
        RenderInfo { gpu_render_batch: Some(0), ..gpu() }.validate(),
        Err(ConfigError::BatchSize)
    );
    assert_eq!(
        RenderInfo { gpu_render_batch: Some(-2), ..gpu() }.validate(),
        Err(ConfigError::BatchSize)
    );
    assert_eq!(
        RenderInfo { gpu_render_batch: Some(3), ..gpu() }.validate(),
        Err(ConfigError::BatchDivisibility)
    );
    assert!(RenderInfo { gpu_render_batch: Some(3), ..base() }.validate().is_ok());
}

#[test]
fn validate_refuses_an_animation_without_framerate() {
    assert_eq!(
        RenderInfo { animation: true, ..base() }.validate(),
        Err(ConfigError::MissingFramerate)
    );
    let rate = Some(Scalar::from_bits(30.0f32.to_bits()));
    assert!(RenderInfo { animation: true, framerate: rate, ..base() }.validate().is_ok());
}

#[test]
fn validate_refuses_a_gpu_animation_with_no_frame_in_flight() {
    let rate = Some(Scalar::from_bits(30.0f32.to_bits()));
    let info = RenderInfo {
        animation: true,
        framerate: rate,
        anim_pipeline_depth: Some(0),
        width: 64,
        height: 64,
        ..gpu()
    };
    assert_eq!(info.validate(), Err(ConfigError::PipelineDepth));
    assert!(RenderInfo { anim_pipeline_depth: Some(1), ..info }.validate().is_ok());
    assert!(RenderInfo { use_gpu: None, ..info }.validate().is_ok());
}

#[test]
fn validate_reports_the_first_fault() {
    let info = RenderInfo { width: -1, samps_per_pix: 0, animation: true, ..gpu() };
    assert_eq!(info.validate(), Err(ConfigError::NegativeDimension));
    let info = RenderInfo { samps_per_pix: 0, width: 60, ..gpu() };
    assert_eq!(info.validate(), Err(ConfigError::SampleCount));
}

#[test]
fn plan_draws_every_sample_once() {
    for (spp, batch) in [(4, 2), (64, 8), (6, 6), (5, 1)] {
        let info = RenderInfo { samps_per_pix: spp, gpu_render_batch: Some(batch), ..gpu() };
        let plan = info.validate().unwrap();
        assert_eq!(plan.passes * plan.samples_per_pass, spp as u32);
        assert_eq!(plan.workgroups_x * 8, plan.width);
        assert_eq!(plan.workgroups_y * 8, plan.height);
    }
}
