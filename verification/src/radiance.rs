//! The decisions of the radiance estimator: when a path ends, when a light
//! is sampled directly, and what counts as a radiance.

use vstd::prelude::*;
use crate::config::RadianceInfo;
use crate::scalar::{Scalar, Vec3};

verus! {

/// Bit pattern of the cap on the factor by which one bounce may scale what
/// comes back along it, `100`.
pub const MAX_THROUGHPUT_BITS: u32 = 0x42C8_0000;

/// What a path does after a hit.
#[derive(Clone, Copy, Debug, PartialEq, Eq, Structural)]
pub enum Bounce {
    /// The path ends with what the hit emits.
    Stop,
    /// The path goes on. With `roulette` it survived a random ending, and
    /// what it brings back is divided by the survival probability.
    Go { roulette: bool },
}

/// What a path does after a hit at `depth` bounces, with `draw` the uniform
/// number drawn for the random ending: it stops at the greatest depth; from
/// the depth at which paths are ended at random it stops unless the number
/// drawn is below the survival probability.
pub open spec fn bounce_spec(depth: u32, info: RadianceInfo, draw: Scalar) -> Bounce {
    if depth >= info.max_depth {
        Bounce::Stop
    } else if depth >= info.rr_start_depth {
        if draw.lt_spec(info.rr_survival) {
            Bounce::Go { roulette: true }
        } else {
            Bounce::Stop
        }
    } else {
        Bounce::Go { roulette: false }
    }
}

/// What a path does after a hit at `depth` bounces.
pub fn bounce_decision(depth: u32, info: &RadianceInfo, draw: Scalar) -> (r: Bounce)
    ensures
        r == bounce_spec(depth, *info, draw),
{
    if depth >= info.max_depth {
        Bounce::Stop
    } else if depth >= info.rr_start_depth {
        if draw.lt(&info.rr_survival) {
            Bounce::Go { roulette: true }
        } else {
            Bounce::Stop
        }
    } else {
        Bounce::Go { roulette: false }
    }
}

/// No path goes deeper than the greatest depth.
pub proof fn lemma_paths_are_bounded(depth: u32, info: RadianceInfo, draw: Scalar)
    ensures
        bounce_spec(depth, info, draw) != Bounce::Stop ==> depth < info.max_depth,
        depth < info.rr_start_depth && depth < info.max_depth ==> bounce_spec(depth, info, draw) == (
        Bounce::Go { roulette: false }),
{
}

/// Whether a light is sampled directly at a hit: only where that is switched
/// on, not at the first hit of a camera ray, and not where the path follows
/// the glossy lobe. In the other cases the bounce itself carries the light, and
/// sampling it as well would count it twice.
pub fn direct_light_allowed(depth: u32, info: &RadianceInfo, specular_branch: bool) -> (r: bool)
    ensures
        r == (info.dls_enabled && depth > 0 && !specular_branch),
{
    info.dls_enabled && depth > 0 && !specular_branch
}

/// The factor of a bounce, held between zero and the cap.
pub fn clamp_throughput(weight: Scalar) -> (r: Scalar)
    ensures
        r == weight.clamp_spec(Scalar { bits: 0 }, Scalar { bits: MAX_THROUGHPUT_BITS }),
        !weight.is_nan_spec() ==> !r.is_nan_spec() && r.key() >= 0 && r.le_spec(
            Scalar { bits: MAX_THROUGHPUT_BITS },
        ),
{
    weight.clamp(Scalar { bits: 0 }, Scalar { bits: MAX_THROUGHPUT_BITS })
}

/// What an estimate counts as: black where a component is infinite or no
/// number; else the estimate with negative components raised to zero.
pub open spec fn clean_spec(estimate: Vec3) -> Vec3 {
    let zero = Scalar { bits: 0 };
    if !estimate.is_finite_spec() {
        Vec3 { x: zero, y: zero, z: zero }
    } else {
        Vec3 {
            x: if estimate.x.key() < 0 { zero } else { estimate.x },
            y: if estimate.y.key() < 0 { zero } else { estimate.y },
            z: if estimate.z.key() < 0 { zero } else { estimate.z },
        }
    }
}

fn raised(x: Scalar) -> (r: Scalar)
    requires
        x.is_finite_spec(),
    ensures
        r == (if x.key() < 0 {
            Scalar { bits: 0 }
        } else {
            x
        }),
        r.is_finite_spec(),
        r.key() >= 0,
{
    if x.lt(&Scalar::zero()) {
        Scalar::zero()
    } else {
        x
    }
}

/// Makes an estimate a radiance: one estimate that went wrong turns black,
/// so that it cannot spoil the mean of a pixel. The second part of the result
/// says whether that happened.
pub fn clean_radiance(estimate: Vec3) -> (r: (Vec3, bool))
    ensures
        r.0 == clean_spec(estimate),
        r.1 == !estimate.is_finite_spec(),
        r.0.is_finite_spec(),
        r.0.x.key() >= 0 && r.0.y.key() >= 0 && r.0.z.key() >= 0,
{
    if !estimate.is_finite() {
        (Vec3 { x: Scalar::zero(), y: Scalar::zero(), z: Scalar::zero() }, true)
    } else {
        (Vec3 { x: raised(estimate.x), y: raised(estimate.y), z: raised(estimate.z) }, false)
    }
}

} // verus!
