//! The renderer's front: a scheme, the publish buffer, and the channel on
//! which finished pictures leave.

use vstd::prelude::*;
use std::sync::mpsc::{Receiver, Sender};
use crate::animation::{frame_at, frame_total_usize, last_timestamp, samples_fit, samples_view, AnimError};
use crate::config::{ConfigError, RenderInfo, RenderPlan};
use crate::members::{MemberTypes, VecInto};
use crate::scalar::{Scalar, Vec3};
use crate::target::{published, target_fault, RenderTarget};

verus! {

/// The sending end of a channel of `std::sync::mpsc`; nothing of its state is
/// visible to proofs.
#[verifier::external_type_specification]
#[verifier::external_body]
#[verifier::reject_recursive_types(T)]
pub struct ExSender<T>(Sender<T>);

/// The receiving end of a channel of `std::sync::mpsc`; nothing of its state
/// is visible to proofs.
#[verifier::external_type_specification]
#[verifier::external_body]
#[verifier::reject_recursive_types(T)]
pub struct ExReceiver<T>(Receiver<T>);

/// `std::sync::mpsc::channel`: a fresh channel for pictures. Nothing is
/// claimed of the two ends.
#[verifier::external_body]
fn picture_channel() -> (ends: (Sender<Vec<u8>>, Receiver<Vec<u8>>)) {
    std::sync::mpsc::channel()
}

/// `Sender::send`: hands `picture` to the channel. The call fails exactly when
/// the receiver is gone, and then gives the value back; the contract claims
/// only that a value given back is the one that was handed in.
#[verifier::external_body]
fn send_picture(sender: &Sender<Vec<u8>>, picture: Vec<u8>) -> (back: Option<Vec<u8>>)
    ensures
        back matches Some(p) ==> p@ == picture@,
{
    match sender.send(picture) {
        Ok(()) => None,
        Err(e) => Some(e.0),
    }
}

/// The camera as the scene description states it.
#[derive(Clone, Copy, Debug, PartialEq, Eq, Structural)]
pub struct Camera {
    pub origin: Vec3,
    pub look_at: Vec3,
    pub up: Vec3,
    pub vfov_deg: Scalar,
    pub aperture: Scalar,
    pub focus_dist: Scalar,
}

/// Everything a render is made from.
#[derive(Debug)]
pub struct Scheme {
    pub cam: Camera,
    pub scene_members: VecInto<MemberTypes>,
    pub render_info: RenderInfo,
}

/// Where the pictures of a renderer arrive.
pub struct RenderOut {
    pub buf_q: Receiver<Vec<u8>>,
}

/// Why a picture was not delivered.
#[derive(Debug)]
pub enum DeliveryError {
    /// Nobody listens any more; the picture comes back.
    SubscriberGone(Vec<u8>),
}

pub struct Renderer {
    target: RenderTarget,
    sender: Sender<Vec<u8>>,
    scheme: Scheme,
}

impl Renderer {
    /// The publish buffer.
    pub closed spec fn target_spec(&self) -> RenderTarget {
        self.target
    }

    /// The scheme that is rendered.
    pub closed spec fn scheme_spec(&self) -> Scheme {
        self.scheme
    }

    pub fn target(&self) -> (r: &RenderTarget)
        ensures
            *r == self.target_spec(),
    {
        &self.target
    }

    pub fn scheme(&self) -> (r: &Scheme)
        ensures
            *r == self.scheme_spec(),
    {
        &self.scheme
    }

    /// Checks the scheme's settings and lays out the passes of a frame: on the
    /// CPU one pass per sample, on the compute device one per batch.
    pub fn plan(&self) -> (r: Result<RenderPlan, ConfigError>)
        ensures
            match r {
                Ok(plan) => self.scheme_spec().render_info.first_fault().is_none() && plan
                    == self.scheme_spec().render_info.plan_spec(),
                Err(e) => self.scheme_spec().render_info.first_fault() == Some(e),
            },
    {
        self.scheme.render_info.validate()
    }

    /// Publishes a picture (see [`RenderTarget::publish`]); the scheme stays.
    pub fn publish(&mut self, colors: &Vec<u8>, channels: usize) -> (r: bool)
        requires
            old(self).target_spec().wf(),
        ensures
            final(self).target_spec().wf(),
            final(self).scheme_spec() == old(self).scheme_spec(),
            final(self).target_spec().canv_width == old(self).target_spec().canv_width,
            final(self).target_spec().canv_height == old(self).target_spec().canv_height,
            r == ((channels == 3 || channels == 4) && colors@.len() == channels * old(
                self,
            ).target_spec().area()),
            r ==> final(self).target_spec()@ == published(
                colors@,
                channels as int,
                old(self).target_spec().area(),
            ),
            !r ==> final(self).target_spec()@ == old(self).target_spec()@,
    {
        self.target.publish(colors, channels)
    }

    /// Blackens the picture (see [`RenderTarget::clear`]); the scheme stays.
    pub fn clear(&mut self)
        requires
            old(self).target_spec().wf(),
        ensures
            final(self).target_spec().wf(),
            final(self).scheme_spec() == old(self).scheme_spec(),
            final(self).target_spec().canv_width == old(self).target_spec().canv_width,
            final(self).target_spec().canv_height == old(self).target_spec().canv_height,
            final(self).target_spec()@ == Seq::new(
                old(self).target_spec()@.len(),
                |i: int| 0u8,
            ),
    {
        self.target.clear()
    }

    /// A renderer of `scheme` with a black picture of `canv_width` by
    /// `canv_height` pixels, and the end of the channel on which its pictures
    /// arrive.
    pub fn new(canv_width: i32, canv_height: i32, scheme: Scheme) -> (r: Result<
        (Renderer, Receiver<Vec<u8>>),
        ConfigError,
    >)
        ensures
            match r {
                Ok((renderer, _)) => {
                    &&& target_fault(canv_width as int, canv_height as int).is_none()
                    &&& renderer.target_spec().wf()
                    &&& renderer.target_spec().canv_width == canv_width
                    &&& renderer.target_spec().canv_height == canv_height
                    &&& renderer.target_spec()@ == Seq::new(
                        (4 * (canv_width * canv_height)) as nat,
                        |i: int| 0u8,
                    )
                    &&& renderer.scheme_spec() == scheme
                },
                Err(e) => target_fault(canv_width as int, canv_height as int) == Some(e),
            },
    {
        let target = match RenderTarget::new(canv_width, canv_height) {
            Ok(t) => t,
            Err(e) => {
                return Err(e);
            },
        };
        let (tx, rx) = picture_channel();
        Ok((Renderer { target, sender: tx, scheme }, rx))
    }

    /// Lays out the scene of every frame of the scheme's animation, from the
    /// positions sampled for its moving members (see
    /// [`VecInto::extract_anim`]).
    pub fn extract_frames(self, samples: &Vec<Vec<Vec3>>) -> (r: Result<
        Vec<VecInto<MemberTypes>>,
        AnimError,
    >)
        requires
            self.scheme_spec().scene_members.wf(),
        ensures
            match r {
                Ok(frames) => {
                    &&& self.scheme_spec().render_info.framerate matches Some(rate)
                    &&& frame_total_usize(last_timestamp(self.scheme_spec().scene_members@), rate)
                        == Some(frames.len())
                    &&& samples_fit(
                        self.scheme_spec().scene_members@,
                        samples_view(samples@),
                        frames@.len(),
                    )
                    &&& forall|i: int|
                        0 <= i < frames.len() ==> (#[trigger] frames[i])@ == frame_at(
                            self.scheme_spec().scene_members@,
                            samples_view(samples@),
                            i,
                        )
                },
                Err(AnimError::MissingFramerate) => self.scheme_spec().render_info.framerate.is_none(),
                Err(AnimError::TooManyFrames) => {
                    &&& self.scheme_spec().render_info.framerate matches Some(rate)
                    &&& frame_total_usize(
                        last_timestamp(self.scheme_spec().scene_members@),
                        rate,
                    ).is_none()
                },
                Err(AnimError::SampleShape) => {
                    &&& self.scheme_spec().render_info.framerate matches Some(rate)
                    &&& frame_total_usize(last_timestamp(self.scheme_spec().scene_members@), rate) matches Some(
                        n,
                    )
                    &&& !samples_fit(self.scheme_spec().scene_members@, samples_view(samples@), n as nat)
                },
            },
    {
        let rate = match self.scheme.render_info.framerate {
            Some(rate) => rate,
            None => {
                return Err(AnimError::MissingFramerate);
            },
        };
        self.scheme.scene_members.extract_anim(rate, samples)
    }

    /// Sends a copy of the picture as it stands to the subscriber. The picture
    /// that comes back with an error is that copy.
    pub fn update_output(&self) -> (r: Result<(), DeliveryError>)
        ensures
            r matches Err(DeliveryError::SubscriberGone(p)) ==> p@ == self.target_spec()@,
    {
        delivery_outcome(send_picture(&self.sender, self.target.snapshot()))
    }
}

/// What a delivery came to, from what the channel handed back: nothing where
/// the picture was taken, the picture itself where nobody listens any more.
pub fn delivery_outcome(back: Option<Vec<u8>>) -> (r: Result<(), DeliveryError>)
    ensures
        match back {
            None => r is Ok,
            Some(picture) => r matches Err(DeliveryError::SubscriberGone(p)) && p == picture,
        },
{
    match back {
        None => Ok(()),
        Some(picture) => Err(DeliveryError::SubscriberGone(picture)),
    }
}

} // verus!
