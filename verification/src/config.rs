//! Render settings and the checks made on them before anything is drawn.

use vstd::prelude::*;
use crate::scalar::Scalar;

verus! {

/// Edge of a compute workgroup, in pixels.
pub const WORKGROUP_EDGE: i32 = 8;

/// Settings of the radiance estimator.
#[derive(Clone, Copy, Debug, PartialEq, Eq, Structural)]
pub struct RadianceInfo {
    /// Bounces after which a path is cut.
    pub max_depth: u32,
    /// Bounces after which paths are ended at random.
    pub rr_start_depth: u32,
    /// Probability with which a path survives such an ending.
    pub rr_survival: Scalar,
    /// Whether emitters are sampled directly.
    pub dls_enabled: bool,
}

/// Settings of a render.
#[derive(Clone, Copy, Debug, PartialEq, Eq, Structural)]
pub struct RenderInfo {
    pub width: i32,
    pub height: i32,
    pub samps_per_pix: i32,
    pub rad_info: RadianceInfo,
    pub kd_tree_depth: usize,
    pub use_gpu: Option<bool>,
    pub animation: bool,
    pub framerate: Option<Scalar>,
    pub gpu_render_batch: Option<i32>,
    pub anim_pipeline_depth: Option<usize>,
}

/// What is wrong with a configuration.
#[derive(Clone, Copy, Debug, PartialEq, Eq, Structural)]
pub enum ConfigError {
    /// Width or height is negative.
    NegativeDimension,
    /// The number of pixels exceeds `i32::MAX`.
    TargetTooLarge,
    /// Fewer than one sample per pixel.
    SampleCount,
    /// On the compute device, width or height is no multiple of 8.
    DimensionNotMultipleOfEight,
    /// The compute device is chosen and no batch size is given.
    MissingBatch,
    /// The batch size is below one.
    BatchSize,
    /// The batch size does not divide the samples per pixel.
    BatchDivisibility,
    /// An animation is asked for and no framerate is given.
    MissingFramerate,
    /// An animation on the compute device may keep no frame in flight.
    PipelineDepth,
}

/// How a frame is rendered: in `passes` rounds of `samples_per_pass` samples
/// per pixel, after each of which the picture is published once.
#[derive(Clone, Copy, Debug, PartialEq, Eq, Structural)]
pub struct RenderPlan {
    pub width: u32,
    pub height: u32,
    pub on_gpu: bool,
    pub passes: u32,
    pub samples_per_pass: u32,
    /// Workgroups along x and y; zero on the CPU.
    pub workgroups_x: u32,
    pub workgroups_y: u32,
}

impl RenderInfo {
    /// Whether the render runs on the compute device.
    pub open spec fn gpu(self) -> bool {
        self.use_gpu == Some(true)
    }

    /// The first rule that the settings break, in the order in which the rules
    /// are listed with [`ConfigError`].
    pub open spec fn first_fault(self) -> Option<ConfigError> {
        if self.width < 0 || self.height < 0 {
            Some(ConfigError::NegativeDimension)
        } else if self.width * self.height > i32::MAX {
            Some(ConfigError::TargetTooLarge)
        } else if self.samps_per_pix < 1 {
            Some(ConfigError::SampleCount)
        } else if self.gpu() && (self.width % WORKGROUP_EDGE != 0 || self.height % WORKGROUP_EDGE
            != 0) {
            Some(ConfigError::DimensionNotMultipleOfEight)
        } else if self.gpu() && self.gpu_render_batch.is_none() {
            Some(ConfigError::MissingBatch)
        } else if self.gpu() && self.gpu_render_batch.unwrap() < 1 {
            Some(ConfigError::BatchSize)
        } else if self.gpu() && self.samps_per_pix % self.gpu_render_batch.unwrap() != 0 {
            Some(ConfigError::BatchDivisibility)
        } else if self.animation && self.framerate.is_none() {
            Some(ConfigError::MissingFramerate)
        } else if self.animation && self.gpu() && self.anim_pipeline_depth == Some(0usize) {
            Some(ConfigError::PipelineDepth)
        } else {
            None
        }
    }

    /// The plan that valid settings stand for.
    pub open spec fn plan_spec(self) -> RenderPlan {
        if self.gpu() {
            RenderPlan {
                width: self.width as u32,
                height: self.height as u32,
                on_gpu: true,
                passes: (self.samps_per_pix / self.gpu_render_batch.unwrap()) as u32,
                samples_per_pass: self.gpu_render_batch.unwrap() as u32,
                workgroups_x: (self.width / WORKGROUP_EDGE) as u32,
                workgroups_y: (self.height / WORKGROUP_EDGE) as u32,
            }
        } else {
            RenderPlan {
                width: self.width as u32,
                height: self.height as u32,
                on_gpu: false,
                passes: self.samps_per_pix as u32,
                samples_per_pass: 1,
                workgroups_x: 0,
                workgroups_y: 0,
            }
        }
    }

    /// Whether the render runs on the compute device.
    pub fn on_gpu(&self) -> (r: bool)
        ensures
            r == self.gpu(),
    {
        match self.use_gpu {
            Some(flag) => flag,
            None => false,
        }
    }

    /// Checks the settings and lays out the passes of a frame.
    pub fn validate(&self) -> (r: Result<RenderPlan, ConfigError>)
        ensures
            match r {
                Ok(plan) => self.first_fault().is_none() && plan == self.plan_spec(),
                Err(e) => self.first_fault() == Some(e),
            },
    {
        if self.width < 0 || self.height < 0 {
            return Err(ConfigError::NegativeDimension);
        }
        assert(0 <= self.width * self.height <= 0x7FFF_FFFF * 0x7FFF_FFFF) by (nonlinear_arith)
            requires
                0 <= self.width <= 0x7FFF_FFFF,
                0 <= self.height <= 0x7FFF_FFFF,
        ;
        if self.width as i64 * self.height as i64 > i32::MAX as i64 {
            return Err(ConfigError::TargetTooLarge);
        }
        if self.samps_per_pix < 1 {
            return Err(ConfigError::SampleCount);
        }
        let gpu = self.on_gpu();
        let mut plan = RenderPlan {
            width: self.width as u32,
            height: self.height as u32,
            on_gpu: gpu,
            passes: self.samps_per_pix as u32,
            samples_per_pass: 1,
            workgroups_x: 0,
            workgroups_y: 0,
        };
        if gpu {
            if self.width % WORKGROUP_EDGE != 0 || self.height % WORKGROUP_EDGE != 0 {
                return Err(ConfigError::DimensionNotMultipleOfEight);
            }
            let batch = match self.gpu_render_batch {
                Some(b) => b,
                None => {
                    return Err(ConfigError::MissingBatch);
                },
            };
            if batch < 1 {
                return Err(ConfigError::BatchSize);
            }
            if self.samps_per_pix % batch != 0 {
                return Err(ConfigError::BatchDivisibility);
            }
            plan.passes = (self.samps_per_pix / batch) as u32;
            plan.samples_per_pass = batch as u32;
            plan.workgroups_x = (self.width / WORKGROUP_EDGE) as u32;
            plan.workgroups_y = (self.height / WORKGROUP_EDGE) as u32;
        }
        if self.animation && self.framerate.is_none() {
            return Err(ConfigError::MissingFramerate);
        }
        if self.animation && gpu {
            match self.anim_pipeline_depth {
                Some(d) => {
                    if d == 0 {
                        return Err(ConfigError::PipelineDepth);
                    }
                },
                None => {},
            }
        }
        Ok(plan)
    }
}

/// A valid plan draws every sample exactly once, and on the compute device
/// its workgroups of 8 by 8 pixels tile the picture without remainder.
pub proof fn lemma_plan_covers_samples(info: RenderInfo)
    requires
        info.first_fault().is_none(),
    ensures
        info.plan_spec().passes * info.plan_spec().samples_per_pass == info.samps_per_pix,
        info.plan_spec().passes >= 1,
        info.plan_spec().on_gpu ==> info.plan_spec().workgroups_x * 8 == info.width
            && info.plan_spec().workgroups_y * 8 == info.height,
{
    if info.gpu() {
        let b = info.gpu_render_batch.unwrap() as int;
        let s = info.samps_per_pix as int;
        vstd::arithmetic::div_mod::lemma_fundamental_div_mod(s, b);
        assert(b * (s / b) == (s / b) * b) by (nonlinear_arith);
        assert(s / b >= 1) by (nonlinear_arith)
            requires
                s == (s / b) * b,
                s >= 1,
                b >= 1,
        ;
        assert(s / b <= s) by (nonlinear_arith)
            requires
                s == (s / b) * b,
                s >= 1,
                b >= 1,
        ;
    }
}

} // verus!
