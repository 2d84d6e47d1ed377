//! Decision core of a physically based path tracer.
//!
//! A path tracer integrates light in floating point and talks to files,
//! threads and a compute device. Around that it decides a great deal: whether
//! the settings of a render are valid, how many frames an animation has and
//! what stands where in each of them, which of several hits of a ray is the
//! closest and what a spatial index may skip, where mesh data lies in the
//! buffers of the device and which buffer is bound to which slot, how many
//! scenes may be built ahead of the renderer, and which frame may be written
//! next. This crate holds those decisions, each with a contract that is proved.
//!
//! Real numbers are carried as single-precision bit patterns ([`scalar`]), so
//! that every value can be stored, compared and ordered exactly. The crate
//! never rounds: arithmetic on coordinates and colours is the caller's, who
//! hands in what it computed and is told what follows from it. Where the crate
//! itself needs a product, a sum or a quotient (the number of frames, the
//! length of a normal in [`norm`], the texel of the sky in [`sky`]), it
//! computes with the exact integers behind the bit patterns.
//!
//! - [`config`]: render settings and their validation
//! - [`members`], [`animation`]: the scene description, animation tracks, and
//!   the scenes of the frames
//! - [`scene`], [`mesh`], [`texture`]: the scene that is rendered, its
//!   decomposition into renderables, mesh and texture ingest
//! - [`hit`], [`sky`], [`accel`], [`kd_build`], [`radiance`]: hits, the sky
//!   box, the k-d tree and its construction, and the decisions of the
//!   estimator
//! - [`target`], [`renderer`], [`pipeline`]: the publish buffer, the renderer's
//!   front, and the frame pipeline of an animation
//! - [`gpu`], [`chunks`], [`bindings`]: what the compute device is handed

pub mod scalar;
pub mod norm;
pub mod config;
pub mod members;
pub mod animation;
pub mod scene;
pub mod mesh;
pub mod texture;
pub mod hit;
pub mod sky;
pub mod accel;
pub mod kd_build;
pub mod radiance;
pub mod target;
pub mod renderer;
pub mod pipeline;
pub mod gpu;
pub mod chunks;
pub mod bindings;
